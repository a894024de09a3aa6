//! A whole-line test for a pattern that is one bracketed class: does any
//! character of the line belong to the class, or, for a negated class, does
//! any character not belong to it. The test looks at the characters of the
//! line one by one, wherever they stand.

use crate::utils::to_chars;
use vstd::prelude::*;

verus! {

/// `p` from index `i` on, with every `[^` taken out, from left to right.
pub open spec fn without_openers(p: Seq<char>, i: int) -> Seq<char>
    decreases p.len() - i,
{
    if i < 0 || i >= p.len() {
        Seq::empty()
    } else if i + 1 < p.len() && p[i] == '[' && p[i + 1] == '^' {
        without_openers(p, i + 2)
    } else {
        seq![p[i]] + without_openers(p, i + 1)
    }
}

/// `c` is a member of the class that `pattern` writes: it stands in the
/// pattern and is no bracket.
pub open spec fn positive_member(pattern: Seq<char>, c: char) -> bool {
    c != '[' && c != ']' && pattern.contains(c)
}

/// `c` is a member of the negated class that `pattern` writes: it stands in
/// what is left of the pattern without its `[^`, and is no `]`.
pub open spec fn negative_member(pattern: Seq<char>, c: char) -> bool {
    c != ']' && without_openers(pattern, 0).contains(c)
}

/// Some character of `line` is a member of the class.
pub open spec fn some_positive(line: Seq<char>, pattern: Seq<char>) -> bool {
    exists|i: int| 0 <= i < line.len() && positive_member(pattern, #[trigger] line[i])
}

/// Some character of `line` is no member of the negated class.
pub open spec fn some_negative(line: Seq<char>, pattern: Seq<char>) -> bool {
    exists|i: int| 0 <= i < line.len() && !negative_member(pattern, #[trigger] line[i])
}

/// `pattern` is `[^...]`.
pub open spec fn is_negative_group(pattern: Seq<char>) -> bool {
    pattern.len() >= 2 && pattern[0] == '[' && pattern[1] == '^' && pattern.last() == ']'
}

/// `pattern` is `[...]` and not `[^...]`.
pub open spec fn is_positive_group(pattern: Seq<char>) -> bool {
    pattern.len() >= 1 && pattern[0] == '[' && !(pattern.len() >= 2 && pattern[1] == '^')
        && pattern.last() == ']'
}

/// Tests whether `s` holds `c`.
fn holds(s: &Vec<char>, c: char) -> (r: bool)
    ensures
        r == s@.contains(c),
{
    let mut i: usize = 0;
    while i < s.len()
        invariant
            i <= s.len(),
            forall|j: int| 0 <= j < i ==> s@[j] != c,
        decreases s.len() - i,
    {
        if s[i] == c {
            return true;
        }
        i += 1;
    }
    false
}

/// `pattern` with every `[^` taken out.
fn strip_openers(pattern: &Vec<char>) -> (r: Vec<char>)
    ensures
        r@ == without_openers(pattern@, 0),
{
    let mut out: Vec<char> = Vec::new();
    let mut i: usize = 0;
    while i < pattern.len()
        invariant
            i <= pattern.len(),
            out@ + without_openers(pattern@, i as int) == without_openers(pattern@, 0),
        decreases pattern.len() - i,
    {
        if i + 1 < pattern.len() && pattern[i] == '[' && pattern[i + 1] == '^' {
            i += 2;
        } else {
            let ghost before = out@;
            out.push(pattern[i]);
            assert(out@ + without_openers(pattern@, i + 1) =~= before + (seq![pattern@[i as int]]
                + without_openers(pattern@, i + 1)));
            i += 1;
        }
    }
    assert(out@ + Seq::<char>::empty() =~= out@);
    out
}

/// Tests whether some character of `input_line` is a member of the class
/// that `pattern` writes.
pub fn positive_character_group(input_line: &str, pattern: &str) -> (r: bool)
    ensures
        r == some_positive(input_line@, pattern@),
{
    let line = to_chars(input_line);
    let set = to_chars(pattern);
    let mut i: usize = 0;
    while i < line.len()
        invariant
            i <= line.len(),
            line@ == input_line@,
            set@ == pattern@,
            forall|j: int| 0 <= j < i ==> !positive_member(pattern@, #[trigger] line@[j]),
        decreases line.len() - i,
    {
        let c: char = line[i];
        if c != '[' && c != ']' && holds(&set, c) {
            return true;
        }
        i += 1;
    }
    false
}

/// Tests whether some character of `input_line` is no member of the negated
/// class that `pattern` writes.
pub fn negative_character_group(input_line: &str, pattern: &str) -> (r: bool)
    ensures
        r == some_negative(input_line@, pattern@),
{
    let line = to_chars(input_line);
    let set = strip_openers(&to_chars(pattern));
    let mut i: usize = 0;
    while i < line.len()
        invariant
            i <= line.len(),
            line@ == input_line@,
            set@ == without_openers(pattern@, 0),
            forall|j: int| 0 <= j < i ==> negative_member(pattern@, #[trigger] line@[j]),
        decreases line.len() - i,
    {
        let c: char = line[i];
        if c == ']' || !holds(&set, c) {
            return true;
        }
        i += 1;
    }
    false
}

/// Tests a line against a pattern that is one bracketed class: a negated
/// class accepts the line if some character is no member, any other class if
/// some character is a member. A pattern of another shape accepts nothing.
pub fn check_character_groups(input_line: &str, pattern: &str) -> (r: bool)
    ensures
        r == ((is_negative_group(pattern@) && some_negative(input_line@, pattern@)) || (
        is_positive_group(pattern@) && some_positive(input_line@, pattern@))),
{
    let p = to_chars(pattern);
    let n: usize = p.len();
    let closed: bool = n >= 1 && p[n - 1] == ']';
    let negated: bool = n >= 2 && p[0] == '[' && p[1] == '^';
    let opened: bool = n >= 1 && p[0] == '[';
    if negated && closed && negative_character_group(input_line, pattern) {
        return true;
    }
    opened && !negated && closed && positive_character_group(input_line, pattern)
}

} // verus!
