//! The sequence value of a file name: the first number in it, or the first
//! one behind an anchor.

use crate::anchor::{after_anchor, is_first_occurrence, lemma_text_after_found,
    lemma_text_after_is_tail, occurs_at, text_after};
use crate::numeral::{all_digits_between, digit_run_end, first_digit_run, first_fraction,
    first_run_end, first_run_start, has_fraction, is_digit, lemma_digit_run,
    lemma_digit_run_found, lemma_first_digit, lemma_first_digit_found, no_digit_between,
    numeral_of, scan_numeral};
use crate::sequence::{digits_value, fallback_value, fraction_digits, is_numeral,
    sequence_value_of, whole_digits, without_leading_zeros, without_trailing_zeros, Decimal,
    SequenceValue};
use vstd::prelude::*;
use vstd::string::*;

verus! {

/// The sequence value of `file_name`: the number denoted by the first numeral
/// behind the first occurrence of `anchor` (by the first numeral of the whole
/// name where `anchor` is empty or does not occur), and the fallback where
/// there is no numeral.
pub open spec fn numbering(file_name: Seq<char>, anchor: Seq<char>) -> Decimal {
    sequence_value_of(numeral_of(text_after(file_name, anchor)))
}

/// Finds the sequence value of `file_name`. With a non-empty `num_after` that
/// occurs in the name, only what follows its first occurrence is looked at.
pub fn extract_numbering(file_name: &str, num_after: &str) -> (value: SequenceValue)
    ensures
        value@ == numbering(file_name@, num_after@),
{
    let effective = after_anchor(file_name, num_after);
    let numeral = scan_numeral(effective.as_str());
    match SequenceValue::parse(numeral.as_str()) {
        Some(value) => value,
        None => SequenceValue::fallback(),
    }
}

/// A piece of `t` that starts with the digits `t[a..b)` and has no digit at
/// `b - a` has its first digit run end at `b - a`.
proof fn lemma_run_in_piece(t: Seq<char>, a: int, b: int, c: int)
    requires
        0 <= a <= b <= c <= t.len(),
        all_digits_between(t, a, b),
        b < c ==> !is_digit(t[b]),
    ensures
        digit_run_end(t.subrange(a, c), 0) == b - a,
{
    let s = t.subrange(a, c);
    assert forall|k: int| 0 <= k < b - a implies is_digit(#[trigger] s[k]) by {
        assert(s[k] == t[a + k]);
    }
    lemma_digit_run(s, 0, b - a);
}

/// A piece of `t` that ends with the digits `t[b..c)` has a digit run from
/// `b - a` to its end.
proof fn lemma_run_to_end_of_piece(t: Seq<char>, a: int, b: int, c: int)
    requires
        0 <= a <= b <= c <= t.len(),
        all_digits_between(t, b, c),
    ensures
        digit_run_end(t.subrange(a, c), b - a) == c - a,
{
    let s = t.subrange(a, c);
    assert forall|k: int| b - a <= k < c - a implies is_digit(#[trigger] s[k]) by {
        assert(s[k] == t[a + k]);
    }
    lemma_digit_run(s, b - a, c - a);
}

/// The value of the numeral that a scan of `t` yields: the fallback where `t`
/// holds no digit, and else the number made of the first run of digits of `t`
/// and of the fraction that directly follows it.
pub proof fn lemma_value_of_text(t: Seq<char>)
    ensures
        first_run_start(t) == t.len() ==> sequence_value_of(numeral_of(t)) == fallback_value(),
        first_run_start(t) < t.len() ==> sequence_value_of(numeral_of(t)) == (Decimal {
            whole: without_leading_zeros(first_digit_run(t)),
            fraction: without_trailing_zeros(first_fraction(t)),
        }),
{
    let i = first_run_start(t);
    let j = first_run_end(t);
    let s = numeral_of(t);
    lemma_first_digit_found(t, 0);
    if i == t.len() {
        assert(s.len() == 0);
        assert(digit_run_end(s, 0) == 0);
    } else {
        lemma_digit_run_found(t, i);
        assert(is_digit(t[i]));
        assert(j > i);
        if j < t.len() && t[j] == '.' {
            let k = digit_run_end(t, j + 1);
            lemma_digit_run_found(t, j + 1);
            if k > j + 1 {
                assert(s == t.subrange(i, k));
                lemma_run_in_piece(t, i, j, k);
                lemma_run_to_end_of_piece(t, i, j + 1, k);
                assert(s[j - i] == t[j]);
                assert(is_numeral(s));
                assert(whole_digits(s) =~= first_digit_run(t));
                assert(fraction_digits(s) =~= first_fraction(t));
            } else {
                if k == t.len() || t[k] == '.' {
                    assert(s == t.subrange(i, j + 1));
                    lemma_run_in_piece(t, i, j, j + 1);
                    lemma_run_to_end_of_piece(t, i, j + 1, j + 1);
                    assert(s[j - i] == t[j]);
                    assert(is_numeral(s));
                    assert(whole_digits(s) =~= first_digit_run(t));
                    assert(fraction_digits(s) =~= first_fraction(t));
                } else {
                    assert(s == t.subrange(i, j));
                    lemma_run_in_piece(t, i, j, j);
                    assert(is_numeral(s));
                    assert(whole_digits(s) =~= first_digit_run(t));
                    assert(fraction_digits(s) =~= first_fraction(t));
                }
            }
        } else {
            assert(s == t.subrange(i, j));
            lemma_run_in_piece(t, i, j, j);
            assert(is_numeral(s));
            assert(whole_digits(s) =~= first_digit_run(t));
            assert(fraction_digits(s) =~= first_fraction(t));
        }
    }
}

/// An anchor that is empty, or that does not occur in the file name, is as
/// good as none: the whole name is scanned.
pub proof fn law_absent_anchor_is_ignored(file_name: Seq<char>, anchor: Seq<char>)
    requires
        anchor.len() == 0 || forall|at: int| !occurs_at(file_name, anchor, at),
    ensures
        text_after(file_name, anchor) == file_name,
        numbering(file_name, anchor) == numbering(file_name, Seq::empty()),
{
    let none = Seq::<char>::empty();
    assert(is_first_occurrence(file_name, none, 0)) by {
        assert(file_name.subrange(0, 0) =~= none);
    }
    lemma_text_after_found(file_name, none, 0);
    assert(file_name.skip(0) =~= file_name);
    if anchor.len() == 0 {
        assert(anchor =~= none);
    }
}

/// The sequence value, said without the scanner. For the part `t` of the file
/// name that is scanned: where `t` holds no digit the value is the fallback;
/// otherwise its integer part is the first run of digits of `t` and its
/// fraction is the run of digits behind a `.` that directly follows that run,
/// zeros in front and at the end left out.
pub proof fn law_numbering_reads_the_first_numeral(file_name: Seq<char>, anchor: Seq<char>)
    ensures
        ({
            let t = text_after(file_name, anchor);
            if first_run_start(t) == t.len() {
                numbering(file_name, anchor) == fallback_value()
            } else {
                numbering(file_name, anchor) == (Decimal {
                    whole: without_leading_zeros(first_digit_run(t)),
                    fraction: without_trailing_zeros(first_fraction(t)),
                })
            }
        }),
{
    lemma_value_of_text(text_after(file_name, anchor));
    lemma_first_digit_found(text_after(file_name, anchor), 0);
}

/// A file name without any digit has the fallback as its sequence value,
/// whatever the anchor.
pub proof fn law_no_digit_gives_fallback(file_name: Seq<char>, anchor: Seq<char>)
    requires
        no_digit_between(file_name, 0, file_name.len() as int),
    ensures
        numbering(file_name, anchor) == fallback_value(),
{
    let t = text_after(file_name, anchor);
    lemma_text_after_is_tail(file_name, anchor);
    let from = choose|from: int| 0 <= from <= file_name.len() && t == file_name.skip(from);
    assert forall|k: int| 0 <= k < t.len() implies !is_digit(#[trigger] t[k]) by {
        assert(t[k] == file_name[from + k]);
    }
    lemma_first_digit(t, 0, t.len() as int);
    lemma_value_of_text(t);
}

/// A file name whose first run of digits, in the part that is scanned, is
/// `007`, with no fraction behind it, has the sequence value 7.
pub proof fn law_leading_zeros_do_not_count(file_name: Seq<char>, anchor: Seq<char>)
    requires
        first_digit_run(text_after(file_name, anchor)) == seq!['0', '0', '7'],
        !has_fraction(text_after(file_name, anchor)),
    ensures
        numbering(file_name, anchor) == (Decimal { whole: seq!['7'], fraction: Seq::empty() }),
        numbering(file_name, anchor).scaled() == 7,
        numbering(file_name, anchor).places() == 0,
        numbering(file_name, anchor).text() == seq!['7'],
{
    let t = text_after(file_name, anchor);
    let run = first_digit_run(t);
    lemma_value_of_text(t);
    lemma_first_digit_found(t, 0);
    assert(run.len() == 3);
    assert(first_run_start(t) < t.len());
    reveal_with_fuel(without_leading_zeros, 4);
    assert(run.drop_first() =~= seq!['0', '7']);
    assert(run.drop_first().drop_first() =~= seq!['7']);
    assert(without_leading_zeros(run) == seq!['7']);
    let value = numbering(file_name, anchor);
    assert(value.whole + value.fraction =~= seq!['7']);
    assert(seq!['7'].drop_last() =~= Seq::<char>::empty());
    reveal_with_fuel(digits_value, 3);
}

} // verus!
