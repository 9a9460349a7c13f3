//! Scanning a text for the first decimal numeral in it.
//!
//! A numeral is a run of ASCII digits, optionally followed by one `.` and
//! more digits. The scanner skips everything before the first digit and stops
//! at the first character that cannot continue the numeral.

use crate::text::chars_of;
use vstd::prelude::*;
use vstd::string::*;

verus! {

/// Whether `c` is one of the ASCII digits `0` to `9`.
pub open spec fn is_digit(c: char) -> bool {
    '0' <= c && c <= '9'
}

/// Index of the first ASCII digit of `t` at or after `from`, or `t.len()`
/// where there is none.
pub open spec fn first_digit_from(t: Seq<char>, from: int) -> int
    decreases t.len() - from,
{
    if from < 0 || from >= t.len() {
        t.len() as int
    } else if is_digit(t[from]) {
        from
    } else {
        first_digit_from(t, from + 1)
    }
}

/// Index just behind the run of ASCII digits of `t` that starts at `from`
/// (`from` itself where `t` holds no digit there).
pub open spec fn digit_run_end(t: Seq<char>, from: int) -> int
    decreases t.len() - from,
{
    if 0 <= from < t.len() && is_digit(t[from]) {
        digit_run_end(t, from + 1)
    } else {
        from
    }
}

/// Where the first run of digits of `t` starts: `t.len()` where `t` holds no
/// digit.
pub open spec fn first_run_start(t: Seq<char>) -> int {
    first_digit_from(t, 0)
}

/// Index just behind the first run of digits of `t`.
pub open spec fn first_run_end(t: Seq<char>) -> int {
    digit_run_end(t, first_run_start(t))
}

/// The first run of digits of `t`, empty where `t` holds no digit.
pub open spec fn first_digit_run(t: Seq<char>) -> Seq<char> {
    t.subrange(first_run_start(t), first_run_end(t))
}

/// Whether a `.` with at least one digit behind it follows the first run of
/// digits of `t`.
pub open spec fn has_fraction(t: Seq<char>) -> bool {
    let j = first_run_end(t);
    j < t.len() && t[j] == '.' && digit_run_end(t, j + 1) > j + 1
}

/// The digits of that fraction, empty where `t` has none.
pub open spec fn first_fraction(t: Seq<char>) -> Seq<char> {
    let j = first_run_end(t);
    if has_fraction(t) {
        t.subrange(j + 1, digit_run_end(t, j + 1))
    } else {
        Seq::empty()
    }
}

/// The numeral that a left-to-right scan of `t` accumulates.
///
/// Scanning starts at the first digit and takes the whole run of digits. A
/// `.` right behind the run is taken too, and so are the digits behind it. A
/// `.` that no digit follows stays at the end of the numeral only where the
/// text ends there or another `.` comes next; before any other character it is
/// dropped again. Where `t` holds no digit the numeral is empty.
pub open spec fn numeral_of(t: Seq<char>) -> Seq<char> {
    let i = first_run_start(t);
    let j = first_run_end(t);
    if i == t.len() {
        Seq::empty()
    } else if j < t.len() && t[j] == '.' {
        let k = digit_run_end(t, j + 1);
        if k > j + 1 {
            t.subrange(i, k)
        } else if k == t.len() || t[k] == '.' {
            t.subrange(i, j + 1)
        } else {
            t.subrange(i, j)
        }
    } else {
        t.subrange(i, j)
    }
}

/// No character of `t` in `[from, to)` is a digit.
pub open spec fn no_digit_between(t: Seq<char>, from: int, to: int) -> bool {
    forall|k: int| from <= k < to ==> !is_digit(#[trigger] t[k])
}

/// Every character of `t` in `[from, to)` is a digit.
pub open spec fn all_digits_between(t: Seq<char>, from: int, to: int) -> bool {
    forall|k: int| from <= k < to ==> is_digit(#[trigger] t[k])
}

/// The first digit at or after `from` is at `i` when nothing before `i` is a
/// digit and `i` is a digit or the end of the text.
pub proof fn lemma_first_digit(t: Seq<char>, from: int, i: int)
    requires
        0 <= from <= i <= t.len(),
        no_digit_between(t, from, i),
        i == t.len() || is_digit(t[i]),
    ensures
        first_digit_from(t, from) == i,
    decreases i - from,
{
    if from < i {
        assert(!is_digit(t[from]));
        lemma_first_digit(t, from + 1, i);
    }
}

/// The digit run from `from` ends at `j` when everything in `[from, j)` is a
/// digit and `j` is no digit or the end of the text.
pub proof fn lemma_digit_run(t: Seq<char>, from: int, j: int)
    requires
        0 <= from <= j <= t.len(),
        all_digits_between(t, from, j),
        j == t.len() || !is_digit(t[j]),
    ensures
        digit_run_end(t, from) == j,
    decreases j - from,
{
    if from < j {
        assert(is_digit(t[from]));
        lemma_digit_run(t, from + 1, j);
    }
}

/// What `first_digit_from` finds: nothing before it is a digit, and it is a
/// digit itself unless the text is over.
pub proof fn lemma_first_digit_found(t: Seq<char>, from: int)
    requires
        0 <= from <= t.len(),
    ensures
        from <= first_digit_from(t, from) <= t.len(),
        no_digit_between(t, from, first_digit_from(t, from)),
        first_digit_from(t, from) < t.len() ==> is_digit(t[first_digit_from(t, from)]),
    decreases t.len() - from,
{
    if from < t.len() && !is_digit(t[from]) {
        lemma_first_digit_found(t, from + 1);
    }
}

/// What `digit_run_end` finds: everything up to it is a digit, and it is none
/// itself.
pub proof fn lemma_digit_run_found(t: Seq<char>, from: int)
    requires
        0 <= from <= t.len(),
    ensures
        from <= digit_run_end(t, from) <= t.len(),
        all_digits_between(t, from, digit_run_end(t, from)),
        digit_run_end(t, from) < t.len() ==> !is_digit(t[digit_run_end(t, from)]),
    decreases t.len() - from,
{
    if from < t.len() && is_digit(t[from]) {
        lemma_digit_run_found(t, from + 1);
    }
}

/// Tells whether `c` is an ASCII digit.
pub fn is_ascii_digit(c: char) -> (b: bool)
    ensures
        b == is_digit(c),
{
    '0' <= c && c <= '9'
}

/// What the scanner knows when it has read `t` up to `i` and goes on: before
/// the first digit nothing but non-digits went by; behind it, at `start`, came
/// digits only, but for one `.` at `dot` once `found_dot` is set.
spec fn scanning(
    t: Seq<char>,
    i: int,
    start: int,
    dot: int,
    found_digit: bool,
    found_dot: bool,
) -> bool {
    if !found_digit {
        !found_dot && no_digit_between(t, 0, i)
    } else if !found_dot {
        start < i && first_digit_from(t, 0) == start && all_digits_between(t, start, i)
    } else {
        &&& start < dot < i
        &&& first_digit_from(t, 0) == start
        &&& all_digits_between(t, start, dot)
        &&& t[dot] == '.'
        &&& all_digits_between(t, dot + 1, i)
    }
}

/// Scans `text` from left to right and returns the first numeral in it, empty
/// where `text` holds no digit.
pub fn scan_numeral(text: &str) -> (numeral: String)
    ensures
        numeral@ == numeral_of(text@),
{
    let chars = chars_of(text);
    let n = chars.len();
    // The numeral accumulated so far is `text[start..i]`. Once the scan has
    // halted it is `text[start..end]`.
    let mut start: usize = 0;
    let mut dot: usize = 0;
    let mut end: usize = 0;
    let mut found_digit = false;
    let mut found_dot = false;
    let mut halted = false;
    let mut i: usize = 0;
    while i < n
        invariant_except_break
            !halted,
        invariant
            i <= n,
            n == text@.len(),
            chars@ == text@,
            !halted ==> scanning(
                text@,
                i as int,
                start as int,
                dot as int,
                found_digit,
                found_dot,
            ),
            halted ==> start <= end <= n && text@.subrange(start as int, end as int) == numeral_of(
                text@,
            ),
        ensures
            !halted ==> i == n,
        decreases n - i,
    {
        let c = chars[i];
        if found_digit && c == '.' {
            if found_dot {
                // A second `.` ends the numeral as it stands.
                proof {
                    lemma_digit_run(text@, start as int, dot as int);
                    lemma_digit_run(text@, dot + 1, i as int);
                }
                end = i;
                halted = true;
                break;
            }
            found_dot = true;
            dot = i;
        } else if found_digit && !is_ascii_digit(c) {
            // Any other character ends it, and a `.` left at its end goes.
            proof {
                if found_dot {
                    lemma_digit_run(text@, start as int, dot as int);
                    lemma_digit_run(text@, dot + 1, i as int);
                } else {
                    lemma_digit_run(text@, start as int, i as int);
                }
            }
            if found_dot && dot + 1 == i {
                end = dot;
            } else {
                end = i;
            }
            halted = true;
            break;
        } else if is_ascii_digit(c) {
            if !found_digit {
                proof {
                    lemma_first_digit(text@, 0, i as int);
                }
                start = i;
                found_digit = true;
            }
        }
        i += 1;
    }
    if !halted {
        // The text is over: the numeral is all that was accumulated.
        proof {
            if !found_digit {
                lemma_first_digit(text@, 0, n as int);
            } else if found_dot {
                lemma_digit_run(text@, start as int, dot as int);
                lemma_digit_run(text@, dot + 1, n as int);
            } else {
                lemma_digit_run(text@, start as int, n as int);
            }
        }
        if found_digit {
            end = n;
        } else {
            start = 0;
            end = 0;
        }
    }
    text.substring_char(start, end).to_owned()
}

} // verus!
