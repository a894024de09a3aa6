//! The scan over a text: every match of a pattern, from left to right,
//! without overlap.

use crate::engine::{caps_view, run_tokens, Cont};
use crate::lemmas::lemma_run_bounds;
use crate::lexer::{compiled, lexer, CompileError};
use crate::semantics::{match_end, match_end_from, ContView, Span};
use crate::token::{views, Token, TokenView};
use crate::utils::{as_int, to_chars};
use vstd::prelude::*;
use vstd::string::StrSliceExecFns;

verus! {

/// The pattern starts with `^`: it can match at the start of the text only.
pub open spec fn anchored(toks: Seq<TokenView>) -> bool {
    toks.len() > 0 && toks[0] is StartAnchor
}

/// The index of the first token to match: the one after a leading `^`.
pub open spec fn first_index(toks: Seq<TokenView>) -> int {
    if anchored(toks) {
        1
    } else {
        0
    }
}

/// Where the scan goes on after a match from `start` to `end`: at `end`, or
/// one character on where the match was empty.
pub open spec fn next_start(start: int, end: int, len: int) -> int {
    if start < end <= len {
        end
    } else {
        start + 1
    }
}

/// The matches the scan finds from offset `start` on. A match attempt is made
/// at `start`; after a match the scan goes on where it ended, after a failure
/// one character on. A pattern that starts with `^` is tried at offset 0
/// only.
pub open spec fn scan_from(chars: Seq<char>, toks: Seq<TokenView>, start: int) -> Seq<Span>
    decreases chars.len() + 1 - start,
{
    if start < 0 || start > chars.len() || (anchored(toks) && start != 0) {
        Seq::empty()
    } else {
        match match_end_from(chars, toks, first_index(toks), start) {
            Some(end) => seq![Span { start, end }] + scan_from(
                chars,
                toks,
                next_start(start, end, chars.len() as int),
            ),
            None => scan_from(chars, toks, start + 1),
        }
    }
}

/// The texts of the spans `spans` of `chars`.
pub open spec fn texts(chars: Seq<char>, spans: Seq<Span>) -> Seq<Seq<char>> {
    Seq::new(spans.len(), |i: int| chars.subrange(spans[i].start, spans[i].end))
}

/// What scanning `text` for `pattern` gives: the matched texts, in order, or
/// the reason why the pattern does not compile.
pub open spec fn grep_result(text: Seq<char>, pattern: Seq<char>) -> Result<
    Seq<Seq<char>>,
    CompileError,
> {
    match compiled(pattern) {
        Ok(toks) => Ok(texts(text, scan_from(text, toks, 0))),
        Err(e) => Err(e),
    }
}

/// The spans that a list of offset pairs stands for.
pub open spec fn spans_view(v: Seq<(usize, usize)>) -> Seq<Span> {
    Seq::new(v.len(), |i: int| span_view(v[i]))
}

/// The span that a pair of offsets stands for.
pub open spec fn span_view(p: (usize, usize)) -> Span {
    Span { start: p.0 as int, end: p.1 as int }
}

/// The texts that a list of strings holds.
pub open spec fn strings_view(v: Seq<String>) -> Seq<Seq<char>> {
    Seq::new(v.len(), |i: int| v[i]@)
}

/// Matches `tokens` from index `from` on against `chars` at `pos`. Returns
/// the offset after the match.
pub(crate) fn match_from(chars: &[char], tokens: &[Token], from: usize, pos: usize) -> (r: Option<
    usize,
>)
    ensures
        as_int(r) == match_end_from(chars@, views(tokens@), from as int, pos as int),
        pos <= chars@.len() ==> (r matches Some(e) ==> pos <= e <= chars@.len()),
{
    let fresh: Vec<Option<(usize, usize)>> = Vec::new();
    proof {
        assert(caps_view(fresh@) =~= Map::<nat, Span>::empty());
        if pos <= chars@.len() {
            lemma_run_bounds(
                chars@,
                views(tokens@),
                from as int,
                pos as int,
                1,
                Map::empty(),
                ContView::Done,
            );
        }
    }
    match run_tokens(chars, tokens, from, pos, 1, &fresh, &Cont::Done) {
        Some(reached) => Some(reached.end),
        None => None,
    }
}

/// Matches `tokens` against `chars` at `pos`. Returns the offset after the
/// match, `None` where there is none.
pub fn match_pattern(chars: &[char], tokens: Vec<Token>, pos: usize) -> (r: Option<usize>)
    ensures
        as_int(r) == match_end(chars@, views(tokens@), pos as int),
        pos <= chars@.len() ==> (r matches Some(e) ==> pos <= e <= chars@.len()),
{
    match_from(chars, tokens.as_slice(), 0, pos)
}

/// Scans `chars` for `tokens` and returns each match as the pair of the
/// offset where it starts and the offset after its end.
pub fn match_spans(chars: &[char], tokens: &[Token]) -> (r: Vec<(usize, usize)>)
    ensures
        spans_view(r@) == scan_from(chars@, views(tokens@), 0),
{
    let pinned: bool = tokens.len() > 0 && is_start_anchor(&tokens[0]);
    let from: usize = if pinned {
        1
    } else {
        0
    };
    let mut found: Vec<(usize, usize)> = Vec::new();
    let mut start: usize = 0;
    let mut going: bool = true;
    assert(spans_view(found@) =~= Seq::<Span>::empty());
    while going
        invariant
            pinned == anchored(views(tokens@)),
            from == first_index(views(tokens@)),
            going ==> start <= chars@.len(),
            scan_from(chars@, views(tokens@), 0) == spans_view(found@) + (if going {
                scan_from(chars@, views(tokens@), start as int)
            } else {
                Seq::<Span>::empty()
            }),
        decreases chars@.len() - start, going as int,
    {
        if pinned && start != 0 {
            going = false;
        } else {
            let ghost before = spans_view(found@);
            let next: usize = match match_from(chars, tokens, from, start) {
                Some(end) => {
                    found.push((start, end));
                    proof {
                        assert(spans_view(found@) =~= before + seq![
                            Span { start: start as int, end: end as int },
                        ]);
                    }
                    if end > start {
                        end
                    } else if start < chars.len() {
                        start + 1
                    } else {
                        going = false;
                        start
                    }
                },
                None => {
                    if start < chars.len() {
                        start + 1
                    } else {
                        going = false;
                        start
                    }
                },
            };
            proof {
                let total = scan_from(chars@, views(tokens@), 0);
                let rest = if going {
                    scan_from(chars@, views(tokens@), next as int)
                } else {
                    Seq::<Span>::empty()
                };
                if !going {
                    assert(scan_from(chars@, views(tokens@), start + 1) =~= Seq::<Span>::empty());
                }
                assert(total =~= spans_view(found@) + rest);
            }
            start = next;
        }
    }
    assert(spans_view(found@) + Seq::<Span>::empty() =~= spans_view(found@));
    found
}

/// Tests whether `t` is the anchor `^`.
fn is_start_anchor(t: &Token) -> (r: bool)
    ensures
        r == (t@ is StartAnchor),
{
    match t {
        Token::StartAnchor => true,
        _ => false,
    }
}

/// Scans `input` for `pattern` and returns the text of every match, from left
/// to right. Matches do not overlap: after a match the scan goes on where it
/// ended. A pattern that does not compile gives its error, and nothing is
/// scanned.
pub fn grep(input: &str, pattern: &str) -> (r: Result<Vec<String>, CompileError>)
    ensures
        match grep_result(input@, pattern@) {
            Ok(found) => r matches Ok(v) && strings_view(v@) == found,
            Err(e) => r matches Err(x) && x == e,
        },
{
    let tokens = match lexer(pattern) {
        Ok(tokens) => tokens,
        Err(e) => {
            return Err(e);
        },
    };
    let chars = to_chars(input);
    let spans = match_spans(chars.as_slice(), tokens.as_slice());
    proof {
        lemma_scan_bounds(chars@, views(tokens@), 0);
    }
    let mut results: Vec<String> = Vec::new();
    let mut i: usize = 0;
    while i < spans.len()
        invariant
            i <= spans@.len(),
            chars@ == input@,
            spans_view(spans@) == scan_from(chars@, views(tokens@), 0),
            spans_in_order(scan_from(chars@, views(tokens@), 0), 0, chars@.len() as int),
            results@.len() == i,
            forall|j: int|
                0 <= j < i ==> (#[trigger] results@[j])@ == input@.subrange(
                    spans@[j].0 as int,
                    spans@[j].1 as int,
                ),
        decreases spans@.len() - i,
    {
        let (start, end) = spans[i];
        proof {
            let s = scan_from(chars@, views(tokens@), 0)[i as int];
            assert(s == span_view(spans@[i as int]));
            assert(0 <= s.start <= s.end <= chars@.len());
        }
        let piece = input.substring_char(start, end);
        results.push(piece.to_owned());
        i += 1;
    }
    proof {
        assert(strings_view(results@) =~= texts(input@, scan_from(input@, views(tokens@), 0)));
    }
    Ok(results)
}

/// The spans lie inside `from..=len`, each starts at or after the end of the
/// one before it, and each starts after the start of the one before it.
pub open spec fn spans_in_order(spans: Seq<Span>, from: int, len: int) -> bool {
    &&& forall|i: int|
        0 <= i < spans.len() ==> from <= (#[trigger] spans[i]).start <= spans[i].end <= len
    &&& forall|i: int, j: int|
        0 <= i < j < spans.len() ==> (#[trigger] spans[i]).end <= (#[trigger] spans[j]).start
            && spans[i].start < spans[j].start
}

/// The matches of a scan lie inside the text, in order, without overlap.
pub proof fn lemma_scan_bounds(chars: Seq<char>, toks: Seq<TokenView>, start: int)
    requires
        0 <= start,
    ensures
        spans_in_order(scan_from(chars, toks, start), start, chars.len() as int),
    decreases chars.len() + 1 - start,
{
    if start > chars.len() || (anchored(toks) && start != 0) {
    } else {
        lemma_run_bounds(chars, toks, first_index(toks), start, 1, Map::empty(), ContView::Done);
        match match_end_from(chars, toks, first_index(toks), start) {
            Some(end) => {
                let next = next_start(start, end, chars.len() as int);
                lemma_scan_bounds(chars, toks, next);
                let rest = scan_from(chars, toks, next);
                let all = seq![Span { start, end }] + rest;
                assert forall|i: int| 0 <= i < all.len() implies start <= (#[trigger] all[i]).start
                    <= all[i].end <= chars.len() by {
                    if i > 0 {
                        assert(all[i] == rest[i - 1]);
                    }
                }
                assert forall|i: int, j: int| 0 <= i < j < all.len() implies (#[trigger] all[i]).end
                    <= (#[trigger] all[j]).start && all[i].start < all[j].start by {
                    assert(all[j] == rest[j - 1]);
                    if i > 0 {
                        assert(all[i] == rest[i - 1]);
                    }
                }
            },
            None => {
                lemma_scan_bounds(chars, toks, start + 1);
            },
        }
    }
}

} // verus!
