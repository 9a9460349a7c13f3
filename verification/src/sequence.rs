//! Sequence values: the decimal number that a numeral denotes, kept exactly.
//!
//! A value is held as its digits in canonical form, so two values are equal
//! as numbers exactly when their digits are equal: `007`, `7` and `7.0` are
//! all the value `7`.

use crate::numeral::{all_digits_between, digit_run_end, is_ascii_digit, is_digit,
    lemma_digit_run, lemma_digit_run_found};
use crate::text::chars_of;
use vstd::prelude::*;
use vstd::string::*;

verus! {

/// A non-negative decimal number: the digits before and behind the decimal
/// point.
pub struct Decimal {
    /// The digits of the integer part, most significant first; empty for zero.
    pub whole: Seq<char>,
    /// The digits behind the decimal point; empty for an integer.
    pub fraction: Seq<char>,
}

/// Every character of `s` is an ASCII digit.
pub open spec fn all_digits(s: Seq<char>) -> bool {
    all_digits_between(s, 0, s.len() as int)
}

/// The number that the digit `c` denotes.
pub open spec fn digit_value(c: char) -> nat {
    (c as nat - '0' as nat) as nat
}

/// The number that the digits `s` denote, read as a decimal integer.
pub open spec fn digits_value(s: Seq<char>) -> nat
    decreases s.len(),
{
    if s.len() == 0 {
        0
    } else {
        digits_value(s.drop_last()) * 10 + digit_value(s.last())
    }
}

/// Ten to the power of `n`.
pub open spec fn pow10(n: nat) -> nat
    decreases n,
{
    if n == 0 {
        1
    } else {
        10 * pow10((n - 1) as nat)
    }
}

impl Decimal {
    /// Digits only, no zero in front of the integer part and none at the end
    /// of the fraction.
    pub open spec fn canonical(self) -> bool {
        &&& all_digits(self.whole)
        &&& all_digits(self.fraction)
        &&& self.whole.len() > 0 ==> self.whole[0] != '0'
        &&& self.fraction.len() > 0 ==> self.fraction.last() != '0'
    }

    /// How many digits stand behind the decimal point.
    pub open spec fn places(self) -> nat {
        self.fraction.len()
    }

    /// The number times ten to the power of `places()`: all its digits read
    /// as one integer.
    pub open spec fn scaled(self) -> nat {
        digits_value(self.whole + self.fraction)
    }

    /// The number written out: the integer part (`0` where it has no digit),
    /// then `.` and the fraction where there is one.
    pub open spec fn text(self) -> Seq<char> {
        let front = if self.whole.len() == 0 {
            seq!['0']
        } else {
            self.whole
        };
        if self.fraction.len() == 0 {
            front
        } else {
            front + seq!['.'] + self.fraction
        }
    }
}

/// The value that stands for "no number found": `99.9`.
pub open spec fn fallback_value() -> Decimal {
    Decimal { whole: seq!['9', '9'], fraction: seq!['9'] }
}

/// Whether `s` is a numeral: one or more digits, then optionally a `.` and
/// any number of digits.
pub open spec fn is_numeral(s: Seq<char>) -> bool {
    let j = digit_run_end(s, 0);
    j > 0 && (j == s.len() || (s[j] == '.' && digit_run_end(s, j + 1) == s.len()))
}

/// The digits of the numeral `s` before its `.`.
pub open spec fn whole_digits(s: Seq<char>) -> Seq<char> {
    s.subrange(0, digit_run_end(s, 0))
}

/// The digits of the numeral `s` behind its `.`; empty where it has none.
pub open spec fn fraction_digits(s: Seq<char>) -> Seq<char> {
    let j = digit_run_end(s, 0);
    if j < s.len() {
        s.subrange(j + 1, s.len() as int)
    } else {
        Seq::empty()
    }
}

/// `s` without the zeros at its front.
pub open spec fn without_leading_zeros(s: Seq<char>) -> Seq<char>
    decreases s.len(),
{
    if s.len() > 0 && s[0] == '0' {
        without_leading_zeros(s.drop_first())
    } else {
        s
    }
}

/// `s` without the zeros at its end.
pub open spec fn without_trailing_zeros(s: Seq<char>) -> Seq<char>
    decreases s.len(),
{
    if s.len() > 0 && s.last() == '0' {
        without_trailing_zeros(s.drop_last())
    } else {
        s
    }
}

/// The number that the text `s` denotes where `s` is a numeral.
pub open spec fn decimal_of(s: Seq<char>) -> Option<Decimal> {
    if is_numeral(s) {
        Some(
            Decimal {
                whole: without_leading_zeros(whole_digits(s)),
                fraction: without_trailing_zeros(fraction_digits(s)),
            },
        )
    } else {
        None
    }
}

/// The sequence value of a scanned numeral: the number it denotes, and the
/// fallback where it is empty or no numeral.
pub open spec fn sequence_value_of(numeral: Seq<char>) -> Decimal {
    match decimal_of(numeral) {
        Some(d) => d,
        None => fallback_value(),
    }
}

/// The sequence value of a file: an exact decimal number in canonical digits.
#[derive(Debug, PartialEq, Eq)]
pub struct SequenceValue {
    whole: String,
    fraction: String,
}

impl View for SequenceValue {
    type V = Decimal;

    closed spec fn view(&self) -> Decimal {
        Decimal { whole: self.whole@, fraction: self.fraction@ }
    }
}

impl Clone for SequenceValue {
    fn clone(&self) -> (value: SequenceValue)
        ensures
            value@ == self@,
    {
        proof {
            use_type_invariant(self);
        }
        SequenceValue { whole: self.whole.clone(), fraction: self.fraction.clone() }
    }
}

impl SequenceValue {
    #[verifier::type_invariant]
    spec fn is_canonical(self) -> bool {
        self@.canonical()
    }

    /// The value that stands for "no number found", `99.9`.
    pub fn fallback() -> (value: SequenceValue)
        ensures
            value@ == fallback_value(),
    {
        proof {
            reveal_strlit("99");
            reveal_strlit("9");
        }
        let whole = "99".to_owned();
        let fraction = "9".to_owned();
        assert(whole@ =~= seq!['9', '9']);
        assert(fraction@ =~= seq!['9']);
        SequenceValue { whole, fraction }
    }

    /// Reads a numeral. Returns the number it denotes, in canonical digits,
    /// and `None` where `numeral` is no numeral.
    pub fn parse(numeral: &str) -> (value: Option<SequenceValue>)
        ensures
            match value {
                Some(v) => decimal_of(numeral@) == Some(v@),
                None => decimal_of(numeral@) is None,
            },
    {
        let chars = chars_of(numeral);
        let n = chars.len();
        let j = digits_end(&chars, 0);
        if j == 0 {
            return None;
        }
        let mut frac_start = n;
        if j < n {
            if chars[j] != '.' {
                return None;
            }
            let k = digits_end(&chars, j + 1);
            if k != n {
                return None;
            }
            frac_start = j + 1;
        }
        // Zeros in front of the integer part do not count.
        let mut lead: usize = 0;
        while lead < j && chars[lead] == '0'
            invariant
                lead <= j <= n,
                n == chars.len(),
                forall|k: int| 0 <= k < lead ==> chars@[k] == '0',
            decreases j - lead,
        {
            lead += 1;
        }
        // Nor do zeros at the end of the fraction.
        let mut keep: usize = n;
        while keep > frac_start && chars[keep - 1] == '0'
            invariant
                frac_start <= keep <= n,
                n == chars.len(),
                forall|k: int| keep <= k < n ==> chars@[k] == '0',
            decreases keep,
        {
            keep -= 1;
        }
        let whole = numeral.substring_char(lead, j).to_owned();
        let fraction = numeral.substring_char(frac_start, keep).to_owned();
        proof {
            let s = numeral@;
            let w = whole_digits(s);
            let f = fraction_digits(s);
            lemma_digit_run_found(s, 0);
            assert(w.skip(lead as int) =~= s.subrange(lead as int, j as int));
            lemma_leading_zeros(w, lead as int);
            if j < n {
                lemma_digit_run_found(s, j + 1);
                assert(f =~= s.subrange(frac_start as int, n as int));
            } else {
                assert(f =~= s.subrange(frac_start as int, n as int));
            }
            assert(f.take(keep - frac_start) =~= s.subrange(frac_start as int, keep as int));
            lemma_trailing_zeros(f, keep - frac_start);
            assert(all_digits(whole@));
            assert(all_digits(fraction@));
        }
        Some(SequenceValue { whole, fraction })
    }

    /// The digits of the integer part, empty for zero.
    pub fn whole(&self) -> (digits: &str)
        ensures
            digits@ == self@.whole,
    {
        self.whole.as_str()
    }

    /// The digits behind the decimal point, empty for an integer.
    pub fn fraction(&self) -> (digits: &str)
        ensures
            digits@ == self@.fraction,
    {
        self.fraction.as_str()
    }

    /// Writes the value out in decimal: `3`, `12.5`, `0.25`, `99.9`.
    pub fn to_text(&self) -> (text: String)
        ensures
            text@ == self@.text(),
    {
        proof {
            reveal_strlit("0");
            reveal_strlit(".");
        }
        let mut text = if self.whole.as_str().is_empty() {
            "0".to_owned()
        } else {
            self.whole.clone()
        };
        assert(text@ =~= if self@.whole.len() == 0 {
            seq!['0']
        } else {
            self@.whole
        });
        if !self.fraction.as_str().is_empty() {
            text.append(".");
            text.append(self.fraction.as_str());
        }
        text
    }
}

/// Index just behind the run of digits of `chars` that starts at `from`.
fn digits_end(chars: &Vec<char>, from: usize) -> (end: usize)
    requires
        from <= chars.len(),
    ensures
        end == digit_run_end(chars@, from as int),
        from <= end <= chars.len(),
{
    let n = chars.len();
    let mut end = from;
    while end < n && is_ascii_digit(chars[end])
        invariant
            from <= end <= n,
            n == chars.len(),
            all_digits_between(chars@, from as int, end as int),
        decreases n - end,
    {
        end += 1;
    }
    proof {
        lemma_digit_run(chars@, from as int, end as int);
    }
    end
}

/// Dropping the zeros in `[0, lead)` of a run that goes on with another digit
/// or ends there.
proof fn lemma_leading_zeros(s: Seq<char>, lead: int)
    requires
        0 <= lead <= s.len(),
        forall|k: int| 0 <= k < lead ==> s[k] == '0',
        lead == s.len() || s[lead] != '0',
    ensures
        without_leading_zeros(s) == s.skip(lead),
    decreases lead,
{
    if lead == 0 {
        assert(s.skip(0) =~= s);
    } else {
        let rest = s.drop_first();
        assert forall|k: int| 0 <= k < lead - 1 implies rest[k] == '0' by {
            assert(rest[k] == s[k + 1]);
        }
        lemma_leading_zeros(rest, lead - 1);
        assert(rest.skip(lead - 1) =~= s.skip(lead));
    }
}

/// Dropping the zeros in `[keep, s.len())` behind a digit that is none, or
/// behind nothing.
proof fn lemma_trailing_zeros(s: Seq<char>, keep: int)
    requires
        0 <= keep <= s.len(),
        forall|k: int| keep <= k < s.len() ==> s[k] == '0',
        keep == 0 || s[keep - 1] != '0',
    ensures
        without_trailing_zeros(s) == s.take(keep),
    decreases s.len() - keep,
{
    if keep == s.len() {
        assert(s.take(keep) =~= s);
    } else {
        let rest = s.drop_last();
        lemma_trailing_zeros(rest, keep);
        assert(rest.take(keep) =~= s.take(keep));
    }
}

/// The canonical digits of a numeral denote the number that the numeral
/// denotes digit for digit: both, scaled by the places of the other, are the
/// same integer.
pub proof fn law_canonical_digits_keep_the_value(s: Seq<char>)
    requires
        is_numeral(s),
    ensures
        decimal_of(s) is Some,
        decimal_of(s)->0.canonical(),
        digits_value(whole_digits(s) + fraction_digits(s)) * pow10(decimal_of(s)->0.places())
            == decimal_of(s)->0.scaled() * pow10(fraction_digits(s).len()),
{
    let w = whole_digits(s);
    let f = fraction_digits(s);
    lemma_value_without_leading_zeros(w, f);
    lemma_value_without_leading_zeros(w, without_trailing_zeros(f));
    lemma_value_without_trailing_zeros(w, f);
    lemma_digit_run_found(s, 0);
    let j = digit_run_end(s, 0);
    assert(all_digits(w)) by {
        assert forall|k: int| 0 <= k < w.len() implies is_digit(#[trigger] w[k]) by {
            assert(w[k] == s[k]);
        }
    }
    if j < s.len() {
        lemma_digit_run_found(s, j + 1);
        assert forall|k: int| 0 <= k < f.len() implies is_digit(#[trigger] f[k]) by {
            assert(f[k] == s[j + 1 + k]);
        }
    }
    assert(all_digits(f));
    lemma_leading_zeros_canonical(w);
    lemma_trailing_zeros_canonical(f);
}

/// A zero in front of digits does not change what they denote.
proof fn lemma_zero_in_front(s: Seq<char>)
    ensures
        digits_value(seq!['0'] + s) == digits_value(s),
    decreases s.len(),
{
    let all = seq!['0'] + s;
    if s.len() == 0 {
        assert(all.drop_last() =~= Seq::<char>::empty());
        assert(digits_value(all.drop_last()) == 0);
    } else {
        lemma_zero_in_front(s.drop_last());
        assert(all.drop_last() =~= seq!['0'] + s.drop_last());
        assert(all.last() == s.last());
    }
}

/// Zeros in front of the integer part do not change the number.
proof fn lemma_value_without_leading_zeros(w: Seq<char>, f: Seq<char>)
    ensures
        digits_value(without_leading_zeros(w) + f) == digits_value(w + f),
    decreases w.len(),
{
    if w.len() > 0 && w[0] == '0' {
        lemma_value_without_leading_zeros(w.drop_first(), f);
        lemma_zero_in_front(w.drop_first() + f);
        assert(seq!['0'] + (w.drop_first() + f) =~= w + f);
    }
}

/// Zeros at the end of the fraction do not change the number: each one that
/// goes takes a factor of ten with it.
proof fn lemma_value_without_trailing_zeros(w: Seq<char>, f: Seq<char>)
    ensures
        digits_value(w + f) * pow10(without_trailing_zeros(f).len()) == digits_value(
            w + without_trailing_zeros(f),
        ) * pow10(f.len()),
    decreases f.len(),
{
    if f.len() > 0 && f.last() == '0' {
        let shorter = f.drop_last();
        let kept = without_trailing_zeros(f);
        lemma_value_without_trailing_zeros(w, shorter);
        assert((w + f).drop_last() =~= w + shorter);
        assert((w + f).last() == '0');
        let a = digits_value(w + shorter);
        let b = digits_value(w + kept);
        let p = pow10(kept.len());
        let q = pow10(shorter.len());
        assert(digits_value(w + f) == a * 10);
        assert(pow10(f.len()) == 10 * q);
        assert(a * p == b * q);
        assert((a * 10) * p == b * (10 * q)) by (nonlinear_arith)
            requires
                a * p == b * q,
        ;
    }
}

/// What is left of digits without their leading zeros is digits, and starts
/// with none.
proof fn lemma_leading_zeros_canonical(w: Seq<char>)
    requires
        all_digits(w),
    ensures
        all_digits(without_leading_zeros(w)),
        without_leading_zeros(w).len() > 0 ==> without_leading_zeros(w)[0] != '0',
    decreases w.len(),
{
    if w.len() > 0 && w[0] == '0' {
        let rest = w.drop_first();
        assert forall|k: int| 0 <= k < rest.len() implies is_digit(#[trigger] rest[k]) by {
            assert(rest[k] == w[k + 1]);
        }
        lemma_leading_zeros_canonical(rest);
    }
}

/// What is left of digits without their trailing zeros is digits, and ends
/// with none.
proof fn lemma_trailing_zeros_canonical(f: Seq<char>)
    requires
        all_digits(f),
    ensures
        all_digits(without_trailing_zeros(f)),
        without_trailing_zeros(f).len() > 0 ==> without_trailing_zeros(f).last() != '0',
    decreases f.len(),
{
    if f.len() > 0 && f.last() == '0' {
        let rest = f.drop_last();
        assert forall|k: int| 0 <= k < rest.len() implies is_digit(#[trigger] rest[k]) by {
            assert(rest[k] == f[k]);
        }
        lemma_trailing_zeros_canonical(rest);
    }
}

/// What a canonical number is written out as is a numeral, and denotes that
/// number.
pub proof fn law_text_denotes_the_value(d: Decimal)
    requires
        d.canonical(),
    ensures
        decimal_of(d.text()) == Some(d),
{
    let front = if d.whole.len() == 0 {
        seq!['0']
    } else {
        d.whole
    };
    let t = d.text();
    let n = front.len() as int;
    assert forall|k: int| 0 <= k < n implies is_digit(#[trigger] t[k]) by {
        assert(t[k] == front[k]);
        if d.whole.len() > 0 {
            assert(is_digit(d.whole[k]));
        }
    }
    if d.fraction.len() == 0 {
        lemma_digit_run(t, 0, n);
        assert(whole_digits(t) =~= front);
        assert(fraction_digits(t) =~= d.fraction);
    } else {
        assert(t[n] == '.');
        lemma_digit_run(t, 0, n);
        assert forall|k: int| n + 1 <= k < t.len() implies is_digit(#[trigger] t[k]) by {
            assert(t[k] == d.fraction[k - n - 1]);
            assert(is_digit(d.fraction[k - n - 1]));
        }
        lemma_digit_run(t, n + 1, t.len() as int);
        assert(whole_digits(t) =~= front);
        assert(fraction_digits(t) =~= d.fraction);
    }
    if d.whole.len() == 0 {
        lemma_leading_zeros(front, 1);
        assert(front.skip(1) =~= d.whole);
    } else {
        lemma_leading_zeros(front, 0);
        assert(front.skip(0) =~= front);
    }
    lemma_trailing_zeros(d.fraction, d.fraction.len() as int);
    assert(d.fraction.take(d.fraction.len() as int) =~= d.fraction);
}

/// Canonical digits are unique: two canonical numbers that are equal as
/// numbers have the same digits.
pub proof fn law_equal_numbers_have_equal_digits(a: Decimal, b: Decimal)
    requires
        a.canonical(),
        b.canonical(),
        a.scaled() * pow10(b.places()) == b.scaled() * pow10(a.places()),
    ensures
        a == b,
{
    if a.places() < b.places() {
        lemma_places_differ(a, b);
    } else if b.places() < a.places() {
        lemma_places_differ(b, a);
    } else {
        let p = pow10(a.places());
        lemma_pow10(a.places());
        let sa = a.scaled();
        let sb = b.scaled();
        assert(sa == sb) by (nonlinear_arith)
            requires
                sa * p == sb * p,
                p > 0,
        ;
        lemma_same_places(a.whole, a.fraction, b.whole, b.fraction);
        lemma_same_whole(a.whole, b.whole);
    }
}

/// A canonical number with fewer places cannot equal one with more: the
/// longer one ends in a digit that is not zero.
proof fn lemma_places_differ(a: Decimal, b: Decimal)
    requires
        a.canonical(),
        b.canonical(),
        a.places() < b.places(),
    ensures
        a.scaled() * pow10(b.places()) != b.scaled() * pow10(a.places()),
{
    let x = b.whole + b.fraction;
    assert(x.last() == b.fraction.last());
    assert(is_digit(b.fraction[b.fraction.len() - 1]));
    let front = digits_value(x.drop_last());
    let last = digit_value(x.last());
    assert(b.scaled() == front * 10 + last);
    assert(1 <= last <= 9);
    lemma_pow10(a.places());
    lemma_pow10_split(a.places(), (b.places() - a.places()) as nat);
    let low = pow10(a.places());
    let gap = pow10((b.places() - a.places() - 1) as nat);
    lemma_pow10((b.places() - a.places() - 1) as nat);
    assert(pow10((b.places() - a.places()) as nat) == 10 * gap);
    assert(pow10(b.places()) == low * (10 * gap));
    let sa = a.scaled();
    assert(sa * (low * (10 * gap)) != (front * 10 + last) * low) by (nonlinear_arith)
        requires
            low > 0,
            1 <= last <= 9,
    {
        // The left side is a multiple of ten times `low`, the right side is
        // not.
        assert(sa * (low * (10 * gap)) == (sa * gap) * (10 * low));
        assert((front * 10 + last) * low == front * (10 * low) + last * low);
        assert(0 < last * low < 10 * low);
        if sa * gap > front {
            assert((sa * gap) * (10 * low) >= (front + 1) * (10 * low));
        } else {
            assert((sa * gap) * (10 * low) <= front * (10 * low));
        }
    }
}

/// Two numbers with the same digits behind the point, in the same number of
/// places, and the same value overall have the same value before the point.
proof fn lemma_same_places(wa: Seq<char>, fa: Seq<char>, wb: Seq<char>, fb: Seq<char>)
    requires
        all_digits(fa),
        all_digits(fb),
        fa.len() == fb.len(),
        digits_value(wa + fa) == digits_value(wb + fb),
    ensures
        fa == fb,
        digits_value(wa) == digits_value(wb),
    decreases fa.len(),
{
    if fa.len() == 0 {
        assert(wa + fa =~= wa);
        assert(wb + fb =~= wb);
        assert(fa =~= fb);
    } else {
        assert((wa + fa).drop_last() =~= wa + fa.drop_last());
        assert((wb + fb).drop_last() =~= wb + fb.drop_last());
        assert((wa + fa).last() == fa.last());
        assert((wb + fb).last() == fb.last());
        assert(is_digit(fa[fa.len() - 1]));
        assert(is_digit(fb[fb.len() - 1]));
        let front_a = fa.drop_last();
        let front_b = fb.drop_last();
        assert forall|k: int| 0 <= k < front_a.len() implies is_digit(#[trigger] front_a[k]) by {
            assert(front_a[k] == fa[k]);
        }
        assert forall|k: int| 0 <= k < front_b.len() implies is_digit(#[trigger] front_b[k]) by {
            assert(front_b[k] == fb[k]);
        }
        lemma_same_places(wa, front_a, wb, front_b);
        assert(fa =~= front_a.push(fa.last()));
        assert(fb =~= front_b.push(fb.last()));
    }
}

/// Digits without a zero in front are fixed by the number they denote.
proof fn lemma_same_whole(x: Seq<char>, y: Seq<char>)
    requires
        all_digits(x),
        all_digits(y),
        x.len() > 0 ==> x[0] != '0',
        y.len() > 0 ==> y[0] != '0',
        digits_value(x) == digits_value(y),
    ensures
        x == y,
    decreases x.len(),
{
    if x.len() == 0 {
        if y.len() > 0 {
            lemma_positive(y);
        }
        assert(x =~= y);
    } else if y.len() == 0 {
        lemma_positive(x);
    } else {
        let front_x = x.drop_last();
        let front_y = y.drop_last();
        assert(is_digit(x[x.len() - 1]));
        assert(is_digit(y[y.len() - 1]));
        assert forall|k: int| 0 <= k < front_x.len() implies is_digit(#[trigger] front_x[k]) by {
            assert(front_x[k] == x[k]);
        }
        assert forall|k: int| 0 <= k < front_y.len() implies is_digit(#[trigger] front_y[k]) by {
            assert(front_y[k] == y[k]);
        }
        lemma_same_whole(front_x, front_y);
        assert(x =~= front_x.push(x.last()));
        assert(y =~= front_y.push(y.last()));
    }
}

/// Digits that start with another digit than zero denote a number above zero.
proof fn lemma_positive(s: Seq<char>)
    requires
        all_digits(s),
        s.len() > 0,
        s[0] != '0',
    ensures
        digits_value(s) > 0,
    decreases s.len(),
{
    if s.len() == 1 {
        assert(is_digit(s[0]));
    } else {
        let front = s.drop_last();
        assert forall|k: int| 0 <= k < front.len() implies is_digit(#[trigger] front[k]) by {
            assert(front[k] == s[k]);
        }
        lemma_positive(front);
    }
}

/// A power of ten is above zero, and the next one is ten times as much.
proof fn lemma_pow10(n: nat)
    ensures
        pow10(n) > 0,
        pow10(n + 1) == 10 * pow10(n),
    decreases n,
{
    if n > 0 {
        lemma_pow10((n - 1) as nat);
    }
}

/// Powers of ten multiply as their exponents add.
proof fn lemma_pow10_split(m: nat, n: nat)
    ensures
        pow10(m + n) == pow10(m) * pow10(n),
    decreases n,
{
    if n == 0 {
        assert(pow10(m) * 1 == pow10(m));
    } else {
        lemma_pow10_split(m, (n - 1) as nat);
        lemma_pow10((m + n - 1) as nat);
        lemma_pow10((n - 1) as nat);
        assert(pow10(m) * (10 * pow10((n - 1) as nat)) == 10 * (pow10(m) * pow10((n - 1) as nat)))
            by (nonlinear_arith);
    }
}

} // verus!
