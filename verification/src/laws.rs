//! What holds of compiling, matching and scanning for every pattern and
//! every text.

use crate::grep::{
    anchored, first_index, grep_result, lemma_scan_bounds, next_start, scan_from, spans_in_order,
    texts,
};
use crate::lexer::{
    class_at, compiled, digits_end, lemma_digits_end, lemma_find_close, lemma_literals_push, lexed_group, lexed_seq, lexed_token, literal_at,
    literals, one_more, quantify, range_at, symbol_kind, Lexed,
};
use crate::semantics::{
    greedy, match_end_from, run, run_head, Captures, ContView, Outcome, Span,
};
use crate::utils::{char_matches, class_matches};
use crate::quantifiers::quantified_end;
use crate::token::{all_well_formed, views, well_formed, Quantifier, Token, TokenView};
use vstd::prelude::*;

verus! {

/// `c` has no special meaning at the top level of a pattern: it stands for
/// itself.
pub open spec fn plain(c: char) -> bool {
    c != '\\' && c != '^' && c != '$' && c != '.' && c != '[' && c != '(' && c != '+' && c != '?'
        && c != '*' && c != '{'
}

/// Every character of `p` is plain.
pub open spec fn all_plain(p: Seq<char>) -> bool {
    forall|i: int| 0 <= i < p.len() ==> plain(#[trigger] p[i])
}

/// `p` stands in `text` at offset `i`.
pub open spec fn occurs_at(text: Seq<char>, p: Seq<char>, i: int) -> bool {
    0 <= i && i + p.len() <= text.len() && text.subrange(i, i + p.len()) == p
}

/// `p` stands somewhere in `text`, at offset `from` or later.
pub open spec fn occurs_from(text: Seq<char>, p: Seq<char>, from: int) -> bool {
    exists|i: int| from <= i && #[trigger] occurs_at(text, p, i)
}

/// Compiling is a function of the pattern alone: two token sequences that
/// the same pattern compiled to are the same tree.
pub proof fn lemma_compile_is_a_function(pattern: Seq<char>, a: Seq<Token>, b: Seq<Token>)
    requires
        compiled(pattern) == Ok::<Seq<TokenView>, crate::lexer::CompileError>(views(a)),
        compiled(pattern) == Ok::<Seq<TokenView>, crate::lexer::CompileError>(views(b)),
    ensures
        views(a) == views(b),
{
}

/// Every token takes at least one character of the pattern, and none past
/// its end.
pub proof fn lemma_lexed_token_advances(p: Seq<char>, i: int, acc: Seq<TokenView>, opened: nat)
    requires
        0 <= i < p.len(),
    ensures
        lexed_token(p, i, acc, opened) matches Ok(l) ==> i < l.next <= p.len(),
    decreases p.len() - i, 1nat,
{
    if p[i] == '(' {
        lemma_lexed_group_advances(p, i + 1, Seq::empty(), one_more(opened));
    } else if p[i] == '[' {
        lemma_find_close(p, i + 1);
    } else if p[i] == '{' {
        lemma_digits_end(p, i + 1);
        let a = digits_end(p, i + 1);
        if a < p.len() {
            lemma_digits_end(p, a + 1);
        }
    }
}

/// Lexing a token sequence stops inside the pattern, at or after its start.
pub proof fn lemma_lexed_seq_advances(
    p: Seq<char>,
    i: int,
    acc: Seq<TokenView>,
    opened: nat,
    nested: bool,
)
    requires
        0 <= i <= p.len(),
    ensures
        lexed_seq(p, i, acc, opened, nested) matches Ok(l) ==> i <= l.next <= p.len(),
    decreases p.len() - i, 2nat,
{
    if i >= p.len() || (nested && (p[i] == '|' || p[i] == ')')) {
    } else {
        lemma_lexed_token_advances(p, i, acc, opened);
        match lexed_token(p, i, acc, opened) {
            Ok(l) => {
                lemma_lexed_seq_advances(p, l.next, l.tokens, l.opened, nested);
            },
            Err(_) => {},
        }
    }
}

/// A group ends inside the pattern, after its start.
pub proof fn lemma_lexed_group_advances(
    p: Seq<char>,
    i: int,
    done: Seq<Seq<TokenView>>,
    opened: nat,
)
    requires
        0 <= i <= p.len(),
    ensures
        lexed_group(p, i, done, opened) matches Ok(g) ==> i < g.next <= p.len(),
    decreases p.len() - i, 3nat,
{
    lemma_lexed_seq_advances(p, i, Seq::empty(), opened, true);
    match lexed_seq(p, i, Seq::empty(), opened, true) {
        Ok(l) => {
            if l.next < i || l.next >= p.len() {
            } else if p[l.next] == '|' {
                lemma_lexed_group_advances(p, l.next + 1, done.push(l.tokens), l.opened);
            } else {
            }
        },
        Err(_) => {},
    }
}

/// Bounds that lex are well formed.
proof fn lemma_range_at_wf(p: Seq<char>, i: int)
    ensures
        range_at(p, i) matches Ok((bounds, _)) ==> bounds.wf(),
{
}

/// A token that holds no other token is well formed.
proof fn lemma_leaf_wf(t: TokenView)
    requires
        !(t is Sequence),
        !(t is Alternation),
        !(t is Quantified),
    ensures
        well_formed(t),
{
}

/// A class of well-formed members is well formed.
proof fn lemma_class_wf(members: Seq<TokenView>, negate: bool)
    requires
        all_well_formed(members),
    ensures
        well_formed(TokenView::Sequence(members, negate)),
{
}

/// A group of well-formed branches is well formed.
proof fn lemma_group_wf(branches: Seq<Seq<TokenView>>)
    requires
        forall|j: int| 0 <= j < branches.len() ==> all_well_formed(#[trigger] branches[j]),
    ensures
        well_formed(TokenView::Alternation(branches)),
{
}

/// A quantified well-formed atom with well-formed bounds is well formed.
proof fn lemma_quantified_wf(atom: TokenView, kind: Quantifier)
    requires
        well_formed(atom),
        kind matches Quantifier::Range(bounds) ==> bounds.wf(),
    ensures
        well_formed(TokenView::Quantified { atom: Box::new(atom), kind }),
{
}

/// A well-formed sequence with a well-formed token added is well formed.
proof fn lemma_push_wf(acc: Seq<TokenView>, t: TokenView)
    requires
        all_well_formed(acc),
        well_formed(t),
    ensures
        all_well_formed(acc.push(t)),
{
    assert forall|j: int| 0 <= j < acc.push(t).len() implies well_formed(
        #[trigger] acc.push(t)[j],
    ) by {
        if j < acc.len() {
            assert(acc.push(t)[j] == acc[j]);
        }
    }
}

/// A well-formed sequence with one token added that holds no other token is
/// well formed.
proof fn lemma_extended_wf(acc: Seq<TokenView>, out: Seq<TokenView>)
    requires
        all_well_formed(acc),
        out.len() == acc.len() + 1,
        forall|j: int| 0 <= j < acc.len() ==> out[j] == acc[j],
        !(out.last() is Sequence),
        !(out.last() is Alternation),
        !(out.last() is Quantified),
    ensures
        all_well_formed(out),
{
    assert forall|j: int| 0 <= j < out.len() implies well_formed(#[trigger] out[j]) by {
        if j < acc.len() {
            assert(out[j] == acc[j]);
        } else {
            lemma_leaf_wf(out[j]);
        }
    }
}

/// A well-formed sequence whose last token is wrapped in a quantifier with
/// well-formed bounds is well formed.
proof fn lemma_quantify_wf(acc: Seq<TokenView>, kind: Quantifier)
    requires
        all_well_formed(acc),
        acc.len() > 0,
        kind matches Quantifier::Range(bounds) ==> bounds.wf(),
    ensures
        all_well_formed(quantify(acc, kind)),
{
    let front = acc.drop_last();
    assert forall|j: int| 0 <= j < front.len() implies well_formed(#[trigger] front[j]) by {
        assert(front[j] == acc[j]);
    }
    assert(well_formed(acc.last()));
    lemma_quantified_wf(acc.last(), kind);
    lemma_push_wf(front, TokenView::Quantified { atom: Box::new(acc.last()), kind });
}

/// Lexing one token keeps a well-formed sequence well formed.
proof fn lemma_lexed_token_wf(p: Seq<char>, i: int, acc: Seq<TokenView>, opened: nat)
    requires
        all_well_formed(acc),
    ensures
        lexed_token(p, i, acc, opened) matches Ok(l) ==> all_well_formed(l.tokens),
    decreases p.len() - i, 1nat,
{
    match lexed_token(p, i, acc, opened) {
        Ok(l) => {
            if i < 0 || i >= p.len() {
            } else if p[i] == '(' {
                lemma_lexed_group_wf(p, i + 1, Seq::empty(), one_more(opened));
                let g = lexed_group(p, i + 1, Seq::empty(), one_more(opened))->Ok_0;
                lemma_group_wf(g.branches);
                lemma_push_wf(acc, TokenView::Alternation(g.branches));
            } else if p[i] == '[' {
                let class = class_at(p, i + 1)->Ok_0.0;
                let members = class->Sequence_0;
                assert forall|j: int| 0 <= j < members.len() implies well_formed(
                    #[trigger] members[j],
                ) by {
                    assert(members[j] is Literal);
                    lemma_leaf_wf(members[j]);
                }
                lemma_class_wf(members, class->Sequence_1);
                lemma_push_wf(acc, class);
            } else if p[i] == '+' || p[i] == '?' || p[i] == '*' {
                lemma_quantify_wf(acc, symbol_kind(p[i]));
            } else if p[i] == '{' {
                lemma_range_at_wf(p, i + 1);
                lemma_quantify_wf(acc, Quantifier::Range(range_at(p, i + 1)->Ok_0.0));
            } else {
                lemma_extended_wf(acc, l.tokens);
            }
        },
        Err(_) => {},
    }
}

/// Lexing a token sequence keeps a well-formed sequence well formed.
proof fn lemma_lexed_seq_wf(p: Seq<char>, i: int, acc: Seq<TokenView>, opened: nat, nested: bool)
    requires
        all_well_formed(acc),
    ensures
        lexed_seq(p, i, acc, opened, nested) matches Ok(l) ==> all_well_formed(l.tokens),
    decreases p.len() - i, 2nat,
{
    if i < 0 || i >= p.len() || (nested && (p[i] == '|' || p[i] == ')')) {
    } else {
        lemma_lexed_token_wf(p, i, acc, opened);
        match lexed_token(p, i, acc, opened) {
            Ok(l) => {
                if i < l.next <= p.len() {
                    lemma_lexed_seq_wf(p, l.next, l.tokens, l.opened, nested);
                }
            },
            Err(_) => {},
        }
    }
}

/// Lexing a group after well-formed branches gives well-formed branches.
proof fn lemma_lexed_group_wf(p: Seq<char>, i: int, done: Seq<Seq<TokenView>>, opened: nat)
    requires
        forall|j: int| 0 <= j < done.len() ==> all_well_formed(#[trigger] done[j]),
    ensures
        lexed_group(p, i, done, opened) matches Ok(g) ==> (forall|j: int|
            0 <= j < g.branches.len() ==> all_well_formed(#[trigger] g.branches[j])),
    decreases p.len() - i, 3nat,
{
    lemma_lexed_seq_wf(p, i, Seq::empty(), opened, true);
    match lexed_seq(p, i, Seq::empty(), opened, true) {
        Ok(l) => {
            if l.next < i || l.next >= p.len() {
            } else if p[l.next] == '|' {
                lemma_lexed_group_wf(p, l.next + 1, done.push(l.tokens), l.opened);
            } else {
            }
        },
        Err(_) => {},
    }
}

/// The compiler builds well-formed trees only: the upper bound of a counted
/// repetition in a compiled pattern is never below its lower bound.
pub proof fn lemma_compiled_is_well_formed(pattern: Seq<char>)
    ensures
        compiled(pattern) matches Ok(toks) ==> all_well_formed(toks),
{
    lemma_lexed_seq_wf(pattern, 0, Seq::empty(), 0, false);
}

/// Lexing the plain characters of `p` from index `i` on adds one literal for
/// each.
proof fn lemma_plain_lexes(p: Seq<char>, i: int)
    requires
        all_plain(p),
        0 <= i <= p.len(),
    ensures
        lexed_seq(p, i, literals(p.subrange(0, i)), 0, false) == Ok::<
            Lexed,
            crate::lexer::CompileError,
        >(Lexed { tokens: literals(p), next: p.len() as int, opened: 0 }),
    decreases p.len() - i,
{
    if i < p.len() {
        let acc = literals(p.subrange(0, i));
        assert(plain(p[i]));
        lemma_literals_push(p.subrange(0, i), p[i]);
        assert(p.subrange(0, i).push(p[i]) =~= p.subrange(0, i + 1));
        assert(lexed_token(p, i, acc, 0) == Ok::<Lexed, crate::lexer::CompileError>(
            Lexed { tokens: literals(p.subrange(0, i + 1)), next: i + 1, opened: 0 },
        ));
        lemma_plain_lexes(p, i + 1);
    } else {
        assert(p.subrange(0, i) =~= p);
    }
}

/// A pattern of plain characters compiles to one literal for each of them.
pub proof fn lemma_plain_compiles(p: Seq<char>)
    requires
        all_plain(p),
    ensures
        compiled(p) == Ok::<Seq<TokenView>, crate::lexer::CompileError>(literals(p)),
{
    assert(p.subrange(0, 0) =~= Seq::<char>::empty());
    assert(literals(p.subrange(0, 0)) =~= Seq::<TokenView>::empty());
    lemma_plain_lexes(p, 0);
}

/// The literals of `p` from index `i` on match at `pos` exactly where the
/// rest of `p` stands at `pos`, and the match is as long as that rest.
proof fn lemma_literals_run(
    text: Seq<char>,
    p: Seq<char>,
    i: int,
    pos: int,
    base: nat,
    caps: Captures,
)
    requires
        0 <= i <= p.len(),
        0 <= pos <= text.len(),
    ensures
        run(text, literals(p), i, pos, base, caps, ContView::Done) == (if occurs_at(
            text,
            p.subrange(i, p.len() as int),
            pos,
        ) {
            Some(Outcome { end: pos + p.len() - i, caps })
        } else {
            None
        }),
    decreases p.len() - i,
{
    reveal_with_fuel(run, 2);
    reveal_with_fuel(run_head, 2);
    let n = p.len() as int;
    let rest = p.subrange(i, n);
    if i == n {
        assert(text.subrange(pos, pos + 0) =~= rest);
    } else {
        assert(literals(p)[i] == literal_at(p, i));
        let tail = p.subrange(i + 1, n);
        if pos < text.len() && text[pos] == p[i] {
            lemma_literals_run(text, p, i + 1, pos + 1, base, caps);
            if occurs_at(text, tail, pos + 1) {
                assert(text.subrange(pos, pos + rest.len()) =~= rest) by {
                    assert forall|k: int| 0 <= k < rest.len() implies text.subrange(
                        pos,
                        pos + rest.len(),
                    )[k] == rest[k] by {
                        if k > 0 {
                            assert(text.subrange(pos + 1, pos + 1 + tail.len())[k - 1] == tail[k
                                - 1]);
                        }
                    }
                }
            } else {
                if occurs_at(text, rest, pos) {
                    assert(text.subrange(pos + 1, pos + 1 + tail.len()) =~= tail) by {
                        assert forall|k: int| 0 <= k < tail.len() implies text.subrange(
                            pos + 1,
                            pos + 1 + tail.len(),
                        )[k] == tail[k] by {
                            assert(text.subrange(pos, pos + rest.len())[k + 1] == rest[k + 1]);
                        }
                    }
                }
            }
        } else {
            if occurs_at(text, rest, pos) {
                assert(text.subrange(pos, pos + rest.len())[0] == rest[0]);
            }
        }
    }
}

/// A pattern of literals matches at an offset exactly where its text stands
/// there, and the match is as long as the pattern.
pub proof fn lemma_literals_match(text: Seq<char>, p: Seq<char>, pos: int)
    requires
        0 <= pos <= text.len(),
    ensures
        match_end_from(text, literals(p), 0, pos) == (if occurs_at(text, p, pos) {
            Some(pos + p.len())
        } else {
            None
        }),
{
    assert(p.subrange(0, p.len() as int) =~= p);
    lemma_literals_run(text, p, 0, pos, 1, Map::empty());
}

/// Scanning for literals finds a match exactly if their text stands in the
/// scanned stretch, and each match is that text.
proof fn lemma_literals_scan(text: Seq<char>, p: Seq<char>, start: int)
    requires
        0 <= start,
    ensures
        scan_from(text, literals(p), start).len() > 0 <==> occurs_from(text, p, start),
        forall|k: int|
            0 <= k < scan_from(text, literals(p), start).len() ==> occurs_at(
                text,
                p,
                (#[trigger] scan_from(text, literals(p), start)[k]).start,
            ) && scan_from(text, literals(p), start)[k].end == scan_from(
                text,
                literals(p),
                start,
            )[k].start + p.len(),
    decreases text.len() + 1 - start,
{
    let toks = literals(p);
    if p.len() > 0 {
        assert(toks[0] == literal_at(p, 0));
    }
    assert(!anchored(toks));
    if start > text.len() {
        if occurs_from(text, p, start) {
            let i = choose|i: int| start <= i && #[trigger] occurs_at(text, p, i);
            assert(false);
        }
    } else {
        lemma_literals_match(text, p, start);
        if occurs_at(text, p, start) {
            let end = start + p.len();
            let next = next_start(start, end, text.len() as int);
            lemma_literals_scan(text, p, next);
            let rest = scan_from(text, toks, next);
            let all = seq![Span { start, end }] + rest;
            assert(scan_from(text, toks, start) == all);
            assert forall|k: int| 0 <= k < all.len() implies occurs_at(
                text,
                p,
                (#[trigger] all[k]).start,
            ) && all[k].end == all[k].start + p.len() by {
                if k > 0 {
                    assert(all[k] == rest[k - 1]);
                }
            }
        } else {
            lemma_literals_scan(text, p, start + 1);
            if occurs_from(text, p, start) {
                let i = choose|i: int| start <= i && #[trigger] occurs_at(text, p, i);
                assert(start + 1 <= i && occurs_at(text, p, i));
            }
            if occurs_from(text, p, start + 1) {
                let i = choose|i: int| start + 1 <= i && #[trigger] occurs_at(text, p, i);
                assert(start <= i && occurs_at(text, p, i));
            }
        }
    }
}

/// Scanning for a pattern of plain characters finds a match exactly if the
/// pattern stands in the text as a contiguous stretch, and every match is the
/// pattern itself.
pub proof fn lemma_plain_pattern_finds_itself(text: Seq<char>, pattern: Seq<char>)
    requires
        all_plain(pattern),
    ensures
        grep_result(text, pattern) matches Ok(found) && (found.len() > 0 <==> occurs_from(
            text,
            pattern,
            0,
        )) && (forall|k: int| 0 <= k < found.len() ==> #[trigger] found[k] == pattern),
{
    lemma_plain_compiles(pattern);
    lemma_literals_scan(text, pattern, 0);
    let spans = scan_from(text, literals(pattern), 0);
    let found = texts(text, spans);
    assert forall|k: int| 0 <= k < found.len() implies #[trigger] found[k] == pattern by {
        assert(occurs_at(text, pattern, spans[k].start));
    }
}

/// `t` stands for one character of the text.
pub open spec fn one_char(t: TokenView) -> bool {
    t is Literal || t is AnyChar || t is Digit || t is Word || t is Sequence
}

/// Whether the one-character token `t` accepts `c`.
pub open spec fn accepts(t: TokenView, c: char) -> bool {
    match t {
        TokenView::Sequence(members, negate) => class_matches(members, negate, c),
        _ => char_matches(t, c),
    }
}

/// How many more repetitions `max` allows after `made` of them.
pub open spec fn reps_left(max: Option<nat>, made: nat) -> Option<nat> {
    match max {
        Some(m) => Some(
            if made <= m {
                (m - made) as nat
            } else {
                0
            },
        ),
        None => None,
    }
}

/// The end of the longest stretch of characters from `pos` on that `t`
/// accepts, at most `left` characters long.
pub open spec fn stretch_end(chars: Seq<char>, t: TokenView, pos: int, left: Option<nat>) -> int
    decreases chars.len() - pos,
{
    if pos < 0 || pos >= chars.len() || !accepts(t, chars[pos]) || left == Some(0nat) {
        pos
    } else {
        stretch_end(chars, t, pos + 1, reps_left(left, 1))
    }
}

/// The greedy run of a one-character atom goes on from its last entry one
/// character at a time, to the end of the longest stretch that the atom
/// accepts.
proof fn lemma_one_char_greedy(
    chars: Seq<char>,
    t: TokenView,
    base: nat,
    max: Option<nat>,
    runs: Seq<Outcome>,
)
    requires
        one_char(t),
        runs.len() > 0,
    ensures
        ({
            let out = greedy(chars, t, base, max, runs);
            let last = runs.last();
            let end = stretch_end(chars, t, last.end, reps_left(max, (runs.len() - 1) as nat));
            &&& last.end <= end
            &&& out.len() == runs.len() + (end - last.end)
            &&& forall|j: int| 0 <= j < runs.len() ==> out[j] == runs[j]
            &&& forall|j: int|
                runs.len() <= j < out.len() ==> out[j] == (Outcome {
                    end: last.end + (j - runs.len() + 1),
                    caps: last.caps,
                })
        }),
    decreases chars.len() - runs.last().end,
{
    reveal_with_fuel(run, 2);
    reveal_with_fuel(run_head, 2);
    let last = runs.last();
    if max matches Some(m) && runs.len() > m {
    } else {
        match run_head(chars, t, Seq::empty(), 0, last.end, base, last.caps, ContView::Done) {
            Some(o) => {
                assert(o == Outcome { end: last.end + 1, caps: last.caps });
                if last.end < o.end <= chars.len() {
                    let more = runs.push(o);
                    lemma_one_char_greedy(chars, t, base, max, more);
                    assert(reps_left(reps_left(max, (runs.len() - 1) as nat), 1) == reps_left(
                        max,
                        (more.len() - 1) as nat,
                    ));
                    let out = greedy(chars, t, base, max, more);
                    assert forall|j: int| 0 <= j < runs.len() implies out[j] == runs[j] by {
                        assert(more[j] == runs[j]);
                    }
                    assert(out[runs.len() as int] == more[runs.len() as int]);
                }
            },
            None => {},
        }
    }
}

/// A quantifier over a one-character atom may stop after any number of
/// characters of the longest stretch that the atom accepts: its greedy run
/// from `pos` ends at `pos`, `pos + 1`, ... up to the end of that stretch, so
/// the rest of the pattern is tried from that end downwards, one character at
/// a time.
pub proof fn lemma_one_char_runs(
    chars: Seq<char>,
    t: TokenView,
    base: nat,
    kind: Quantifier,
    pos: int,
    caps: Captures,
)
    requires
        one_char(t),
    ensures
        ({
            let out = greedy(chars, t, base, kind.max_reps(), seq![Outcome { end: pos, caps }]);
            let end = stretch_end(chars, t, pos, kind.max_reps());
            &&& pos <= end
            &&& out.len() == end - pos + 1
            &&& forall|j: int| 0 <= j < out.len() ==> out[j] == (Outcome { end: pos + j, caps })
        }),
{
    let start = seq![Outcome { end: pos, caps }];
    lemma_one_char_greedy(chars, t, base, kind.max_reps(), start);
    assert(reps_left(kind.max_reps(), 0) == kind.max_reps());
}

/// Two quantifiers with the same limits match alike: `x{1,}` is `x+`,
/// `x{0,}` is `x*` and `x{0,1}` is `x?`.
pub proof fn lemma_same_limits_match_alike(
    chars: Seq<char>,
    atom: TokenView,
    a: Quantifier,
    b: Quantifier,
    after: Seq<TokenView>,
    pos: int,
)
    requires
        a.min_reps() == b.min_reps(),
        a.max_reps() == b.max_reps(),
    ensures
        quantified_end(chars, atom, a, after, pos) == quantified_end(chars, atom, b, after, pos),
{
}

/// The text from `from` on, put together again from the stretches that the
/// scan skipped and the stretches that it matched, in order.
pub open spec fn stitched(chars: Seq<char>, spans: Seq<Span>, from: int) -> Seq<char>
    decreases spans.len(),
{
    if spans.len() == 0 {
        chars.subrange(from, chars.len() as int)
    } else {
        chars.subrange(from, spans[0].start) + chars.subrange(spans[0].start, spans[0].end)
            + stitched(chars, spans.drop_first(), spans[0].end)
    }
}

/// Spans that lie in order inside the text cut it into skipped and matched
/// stretches that together are the text again.
pub proof fn lemma_stitched(chars: Seq<char>, spans: Seq<Span>, from: int)
    requires
        0 <= from <= chars.len(),
        spans_in_order(spans, from, chars.len() as int),
    ensures
        stitched(chars, spans, from) == chars.subrange(from, chars.len() as int),
    decreases spans.len(),
{
    if spans.len() > 0 {
        let first = spans[0];
        let rest = spans.drop_first();
        assert forall|i: int| 0 <= i < rest.len() implies first.end <= (#[trigger] rest[i]).start
            <= rest[i].end <= chars.len() by {
            assert(rest[i] == spans[i + 1]);
        }
        assert forall|i: int, j: int| 0 <= i < j < rest.len() implies (#[trigger] rest[i]).end <= (
        #[trigger] rest[j]).start && rest[i].start < rest[j].start by {
            assert(rest[i] == spans[i + 1]);
            assert(rest[j] == spans[j + 1]);
        }
        lemma_stitched(chars, rest, first.end);
        assert(chars.subrange(from, first.start) + chars.subrange(first.start, first.end)
            + chars.subrange(first.end, chars.len() as int) =~= chars.subrange(
            from,
            chars.len() as int,
        ));
    }
}

/// The matches of a scan do not overlap: they lie inside the text, each
/// starts at or after the end of the one before, and the matches together
/// with the stretches skipped between them are the whole text again.
pub proof fn lemma_scan_partitions_text(chars: Seq<char>, toks: Seq<TokenView>)
    ensures
        spans_in_order(scan_from(chars, toks, 0), 0, chars.len() as int),
        stitched(chars, scan_from(chars, toks, 0), 0) == chars,
{
    lemma_scan_bounds(chars, toks, 0);
    lemma_stitched(chars, scan_from(chars, toks, 0), 0);
    assert(chars.subrange(0, chars.len() as int) =~= chars);
}

/// A scan from `start` on makes at most one match for each offset left.
proof fn lemma_scan_count(chars: Seq<char>, toks: Seq<TokenView>, start: int)
    requires
        0 <= start,
    ensures
        scan_from(chars, toks, start).len() <= (if start <= chars.len() {
            chars.len() + 1 - start
        } else {
            0
        }),
    decreases chars.len() + 1 - start,
{
    if start > chars.len() || (anchored(toks) && start != 0) {
    } else {
        match match_end_from(chars, toks, first_index(toks), start) {
            Some(end) => {
                lemma_scan_count(chars, toks, next_start(start, end, chars.len() as int));
            },
            None => {
                lemma_scan_count(chars, toks, start + 1);
            },
        }
    }
}

/// The scan moves on with every match, an empty one too: each match starts
/// after the start of the one before, so a text of `n` characters holds at
/// most `n + 1` matches.
pub proof fn lemma_scan_moves_on(chars: Seq<char>, toks: Seq<TokenView>)
    ensures
        scan_from(chars, toks, 0).len() <= chars.len() + 1,
        forall|i: int, j: int|
            0 <= i < j < scan_from(chars, toks, 0).len() ==> (#[trigger] scan_from(
                chars,
                toks,
                0,
            )[i]).start < (#[trigger] scan_from(chars, toks, 0)[j]).start,
{
    lemma_scan_count(chars, toks, 0);
    lemma_scan_bounds(chars, toks, 0);
}

} // verus!
