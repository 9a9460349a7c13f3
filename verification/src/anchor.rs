//! Cutting a text off behind the first occurrence of an anchor.

use crate::text::chars_of;
use vstd::prelude::*;
use vstd::string::*;

verus! {

/// Whether `pattern` stands in `text` at index `at`.
pub open spec fn occurs_at(text: Seq<char>, pattern: Seq<char>, at: int) -> bool {
    &&& 0 <= at
    &&& at + pattern.len() <= text.len()
    &&& text.subrange(at, at + pattern.len()) == pattern
}

/// Whether `at` is the leftmost index at which `pattern` stands in `text`.
pub open spec fn is_first_occurrence(text: Seq<char>, pattern: Seq<char>, at: int) -> bool {
    &&& occurs_at(text, pattern, at)
    &&& forall|j: int| 0 <= j < at ==> !occurs_at(text, pattern, j)
}

/// What is left of `text` behind the first occurrence of `anchor`; all of
/// `text` where `anchor` does not occur in it. The match is case-sensitive.
/// An empty anchor occurs at the very start, so it leaves all of `text` too.
pub open spec fn text_after(text: Seq<char>, anchor: Seq<char>) -> Seq<char> {
    if exists|at: int| occurs_at(text, anchor, at) {
        let at = choose|at: int| is_first_occurrence(text, anchor, at);
        text.skip(at + anchor.len())
    } else {
        text
    }
}

/// There is at most one leftmost occurrence.
pub proof fn lemma_first_occurrence_unique(text: Seq<char>, pattern: Seq<char>, a: int, b: int)
    requires
        is_first_occurrence(text, pattern, a),
        is_first_occurrence(text, pattern, b),
    ensures
        a == b,
{
}

/// With a leftmost occurrence at `at`, `text_after` is what follows it.
pub proof fn lemma_text_after_found(text: Seq<char>, anchor: Seq<char>, at: int)
    requires
        is_first_occurrence(text, anchor, at),
    ensures
        text_after(text, anchor) == text.skip(at + anchor.len()),
{
    assert(occurs_at(text, anchor, at));
    let chosen = choose|c: int| is_first_occurrence(text, anchor, c);
    lemma_first_occurrence_unique(text, anchor, at, chosen);
}

/// What is left behind an anchor is a tail of the text.
pub proof fn lemma_text_after_is_tail(text: Seq<char>, anchor: Seq<char>)
    ensures
        exists|from: int| 0 <= from <= text.len() && text_after(text, anchor) == text.skip(from),
{
    if exists|at: int| occurs_at(text, anchor, at) {
        let first = choose|at: int| is_first_occurrence(text, anchor, at);
        lemma_first_occurrence_exists(text, anchor);
        assert(text_after(text, anchor) == text.skip(first + anchor.len()));
    } else {
        assert(text.skip(0) =~= text);
    }
}

/// A pattern that occurs somewhere has a leftmost occurrence.
pub proof fn lemma_first_occurrence_exists(text: Seq<char>, pattern: Seq<char>)
    requires
        exists|at: int| occurs_at(text, pattern, at),
    ensures
        exists|at: int| is_first_occurrence(text, pattern, at),
{
    let some = choose|at: int| occurs_at(text, pattern, at);
    lemma_first_occurrence_before(text, pattern, some);
}

/// With an occurrence at `at` there is a leftmost one at or before `at`.
proof fn lemma_first_occurrence_before(text: Seq<char>, pattern: Seq<char>, at: int)
    requires
        occurs_at(text, pattern, at),
    ensures
        exists|first: int| first <= at && is_first_occurrence(text, pattern, first),
    decreases at,
{
    if exists|j: int| 0 <= j < at && occurs_at(text, pattern, j) {
        let j = choose|j: int| 0 <= j < at && occurs_at(text, pattern, j);
        lemma_first_occurrence_before(text, pattern, j);
    } else {
        assert(is_first_occurrence(text, pattern, at));
    }
}

/// Tells whether `pattern` stands in `text` at index `at`.
fn matches_at(text: &Vec<char>, pattern: &Vec<char>, at: usize) -> (b: bool)
    requires
        at + pattern.len() <= text.len(),
    ensures
        b == occurs_at(text@, pattern@, at as int),
{
    let m = pattern.len();
    let mut k: usize = 0;
    while k < m
        invariant
            k <= m,
            m == pattern.len(),
            at + m <= text.len(),
            forall|j: int| 0 <= j < k ==> text@[at + j] == pattern@[j],
        decreases m - k,
    {
        if text[at + k] != pattern[k] {
            proof {
                assert(text@.subrange(at as int, at + m)[k as int] == text@[at + k]);
            }
            return false;
        }
        k += 1;
    }
    proof {
        assert(text@.subrange(at as int, at + m) =~= pattern@);
    }
    true
}

/// Finds the leftmost index at which `pattern` stands in `text`, counted in
/// characters.
pub fn find_first(text: &str, pattern: &str) -> (found: Option<usize>)
    ensures
        match found {
            Some(at) => is_first_occurrence(text@, pattern@, at as int),
            None => forall|j: int| !occurs_at(text@, pattern@, j),
        },
{
    let t = chars_of(text);
    let p = chars_of(pattern);
    if p.len() > t.len() {
        return None;
    }
    let last = t.len() - p.len();
    let mut at: usize = 0;
    loop
        invariant
            at <= last,
            last == t.len() - p.len(),
            p.len() <= t.len(),
            t@ == text@,
            p@ == pattern@,
            forall|j: int| 0 <= j < at ==> !occurs_at(text@, pattern@, j),
        decreases last - at,
    {
        if matches_at(&t, &p, at) {
            return Some(at);
        }
        if at == last {
            return None;
        }
        at += 1;
    }
}

/// Returns what is left of `text` behind the first occurrence of `anchor`, and
/// all of `text` where `anchor` is empty or does not occur.
pub fn after_anchor(text: &str, anchor: &str) -> (rest: String)
    ensures
        rest@ == text_after(text@, anchor@),
{
    match find_first(text, anchor) {
        Some(at) => {
            proof {
                lemma_text_after_found(text@, anchor@, at as int);
            }
            let n = text.unicode_len();
            let m = anchor.unicode_len();
            text.substring_char(at + m, n).to_owned()
        },
        None => text.to_owned(),
    }
}

} // verus!
