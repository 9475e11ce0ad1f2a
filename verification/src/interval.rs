//! Pacing intervals: a span of time in whole milliseconds, and the parser
//! that reads one from a number and a unit, `s` or `ms`.

use vstd::prelude::*;
use vstd::slice::slice_subrange;
use crate::number::{
    all_digits, decimal_text, decimal_value, digits_number_of, is_digit,
    lemma_decimal_text_round_trip, lemma_digits_alone, lemma_number_of_digits, parse_digits,
    NumberError,
};
use crate::text::{
    chars_of, drop_suffix, ends_with, has_suffix, lemma_trimmed_unchanged, occurs, occurs_at,
    trim, trimmed,
};

verus! {

/// A span of time, exact to the millisecond. Its view is the number of
/// milliseconds it lasts.
#[derive(Clone, Copy, Debug, PartialEq, Eq, Structural)]
pub struct Interval {
    millis: u128,
}

/// Why a text was refused as an interval.
#[derive(Clone, Copy, Debug, PartialEq, Eq, Structural)]
pub enum IntervalError {
    /// The text ends in neither `s` nor `ms`.
    MissingUnit,
    /// What precedes the unit is not a number that fits.
    Number(NumberError),
}

impl IntervalError {
    /// The words that tell an operator what went wrong. Both show the two
    /// forms that are accepted.
    pub open spec fn message_text(self) -> Seq<char> {
        match self {
            IntervalError::MissingUnit => "e.g. `1s` / `1000ms`"@,
            IntervalError::Number(_) => "unexpected format, e.g. `1s` / `1000ms`"@,
        }
    }

    /// Tells an operator what went wrong.
    pub fn message(&self) -> (r: &'static str)
        ensures
            r@ == self.message_text(),
    {
        match self {
            IntervalError::MissingUnit => "e.g. `1s` / `1000ms`",
            IntervalError::Number(_) => "unexpected format, e.g. `1s` / `1000ms`",
        }
    }
}

impl View for Interval {
    type V = nat;

    closed spec fn view(&self) -> nat {
        self.millis as nat
    }
}

impl Interval {
    #[verifier::type_invariant]
    spec fn fits(self) -> bool {
        self.millis <= u64::MAX * 1000 + 999
    }

    /// The interval of `millis` milliseconds.
    pub fn from_millis(millis: u64) -> (r: Interval)
        ensures
            r@ == millis,
    {
        Interval { millis: millis as u128 }
    }

    /// The interval of `secs` seconds.
    pub fn from_secs(secs: u64) -> (r: Interval)
        ensures
            r@ == secs * 1000,
    {
        Interval { millis: secs as u128 * 1000 }
    }

    /// The length in milliseconds.
    pub fn as_millis(&self) -> (r: u128)
        ensures
            r == self@,
    {
        self.millis
    }

    /// The whole seconds of the length.
    pub fn as_secs(&self) -> (r: u64)
        ensures
            r == self@ / 1000,
    {
        proof {
            use_type_invariant(self);
        }
        (self.millis / 1000) as u64
    }

    /// The milliseconds beyond the whole seconds.
    pub fn subsec_millis(&self) -> (r: u32)
        ensures
            r == self@ % 1000,
    {
        (self.millis % 1000) as u32
    }
}

/// A number read with a unit that is worth `scale` milliseconds.
pub open spec fn scaled_interval(
    number: Result<nat, NumberError>,
    scale: nat,
) -> Result<nat, IntervalError> {
    match number {
        Ok(n) => Ok(n * scale),
        Err(e) => Err(IntervalError::Number(e)),
    }
}

/// The milliseconds that `text` denotes. White space around it is ignored.
/// The unit is the ending, `ms` before `s`, in lower case; all that precedes
/// it is the number: decimal digits alone, without a sign, of at most
/// `u64::MAX`.
pub open spec fn interval_millis(text: Seq<char>) -> Result<nat, IntervalError> {
    let t = trimmed(text);
    if has_suffix(t, "ms"@) {
        scaled_interval(digits_number_of(drop_suffix(t, 2), u64::MAX as nat), 1)
    } else if has_suffix(t, "s"@) {
        scaled_interval(digits_number_of(drop_suffix(t, 1), u64::MAX as nat), 1000)
    } else {
        Err(IntervalError::MissingUnit)
    }
}

/// What a parser's result says in milliseconds.
pub open spec fn in_millis(r: Result<Interval, IntervalError>) -> Result<nat, IntervalError> {
    match r {
        Ok(interval) => Ok(interval@),
        Err(e) => Err(e),
    }
}

/// Reads an interval such as `1s` or `1000ms`: decimal digits, then the
/// unit. Anything else is refused, a sign before the digits too.
pub fn convert_interval(value: &str) -> (r: Result<Interval, IntervalError>)
    ensures
        in_millis(r) == interval_millis(value@),
{
    let chars = chars_of(trim(value));
    let text = chars.as_slice();
    let n = text.len();
    proof {
        reveal_strlit("ms");
        reveal_strlit("s");
    }
    if ends_with(text, "ms") {
        match parse_digits(slice_subrange(text, 0, n - 2), u64::MAX) {
            Ok(millis) => Ok(Interval::from_millis(millis)),
            Err(e) => Err(IntervalError::Number(e)),
        }
    } else if ends_with(text, "s") {
        match parse_digits(slice_subrange(text, 0, n - 1), u64::MAX) {
            Ok(secs) => Ok(Interval::from_secs(secs)),
            Err(e) => Err(IntervalError::Number(e)),
        }
    } else {
        Err(IntervalError::MissingUnit)
    }
}

/// A non-empty run of digits followed by `ms` denotes as many milliseconds
/// as the digits say, and followed by `s` as many seconds, as long as the
/// number is at most `u64::MAX`.
pub proof fn lemma_interval_of_digits(digits: Seq<char>)
    requires
        digits.len() > 0,
        all_digits(digits),
        decimal_value(digits) <= u64::MAX,
    ensures
        interval_millis(digits + "ms"@) == Ok::<nat, IntervalError>(decimal_value(digits)),
        interval_millis(digits + "s"@) == Ok::<nat, IntervalError>(decimal_value(digits) * 1000),
{
    reveal_strlit("ms");
    reveal_strlit("s");
    assert(is_digit(digits[0]));
    assert(is_digit(digits[digits.len() - 1]));
    lemma_number_of_digits(digits, u64::MAX as nat);

    let millis = digits + "ms"@;
    assert(millis.first() == digits[0] && millis.last() == 's');
    lemma_trimmed_unchanged(millis);
    assert(millis.subrange(millis.len() - 2, millis.len() as int) == "ms"@);
    assert(drop_suffix(millis, 2) == digits);

    let secs = digits + "s"@;
    assert(secs.first() == digits[0] && secs.last() == 's');
    lemma_trimmed_unchanged(secs);
    assert(secs.subrange(secs.len() - 1, secs.len() as int) == "s"@);
    assert(drop_suffix(secs, 1) == digits);
    assert(!has_suffix(secs, "ms"@)) by {
        if secs.len() >= 2 {
            assert(secs.subrange(secs.len() - 2, secs.len() as int)[0] == digits[digits.len() - 1]);
        }
    }
}

/// Every number of at most `u64::MAX`, written in decimal and followed by
/// `ms`, is read as that many milliseconds; followed by `s`, as that many
/// seconds.
pub proof fn lemma_interval_of_number(n: nat)
    requires
        n <= u64::MAX,
    ensures
        interval_millis(decimal_text(n) + "ms"@) == Ok::<nat, IntervalError>(n),
        interval_millis(decimal_text(n) + "s"@) == Ok::<nat, IntervalError>(n * 1000),
{
    lemma_decimal_text_round_trip(n);
    lemma_interval_of_digits(decimal_text(n));
}

/// Whether `s` is a number as an interval admits it: one or more decimal
/// digits, nothing else, of at most `u64::MAX`.
pub open spec fn is_count(s: Seq<char>) -> bool {
    s.len() > 0 && all_digits(s) && decimal_value(s) <= u64::MAX
}

/// A text is read as an interval exactly when, white space aside, it is a
/// count followed by `ms` or a count followed by `s`. Its value is then the
/// count, in milliseconds or in seconds. A sign, a letter or a second unit
/// in the number makes the text a refused one.
pub proof fn lemma_interval_forms(text: Seq<char>)
    ensures
        interval_millis(text) is Ok <==> {
            ||| has_suffix(trimmed(text), "ms"@) && is_count(drop_suffix(trimmed(text), 2))
            ||| has_suffix(trimmed(text), "s"@) && is_count(drop_suffix(trimmed(text), 1))
        },
        has_suffix(trimmed(text), "ms"@) && is_count(drop_suffix(trimmed(text), 2))
            ==> interval_millis(text) == Ok::<nat, IntervalError>(
            decimal_value(drop_suffix(trimmed(text), 2)),
        ),
        has_suffix(trimmed(text), "s"@) && is_count(drop_suffix(trimmed(text), 1))
            ==> interval_millis(text) == Ok::<nat, IntervalError>(
            decimal_value(drop_suffix(trimmed(text), 1)) * 1000,
        ),
{
    reveal_strlit("ms");
    reveal_strlit("s");
    let t = trimmed(text);
    lemma_digits_alone(drop_suffix(t, 2), u64::MAX as nat);
    lemma_digits_alone(drop_suffix(t, 1), u64::MAX as nat);
    if has_suffix(t, "ms"@) {
        let tail = t.subrange(t.len() - 2, t.len() as int);
        assert(tail[0] == 'm');
        let number = drop_suffix(t, 1);
        assert(number[number.len() - 1] == 'm');
        assert(!is_digit(number[number.len() - 1]));
    }
}

/// Every refusal tells the operator both forms that are accepted: its
/// message holds `1s` and `1000ms`, each between backquotes.
pub proof fn lemma_interval_messages_show_both_forms(e: IntervalError)
    ensures
        occurs(e.message_text(), "`1s`"@),
        occurs(e.message_text(), "`1000ms`"@),
{
    reveal_strlit("`1s`");
    reveal_strlit("`1000ms`");
    reveal_strlit("e.g. `1s` / `1000ms`");
    reveal_strlit("unexpected format, e.g. `1s` / `1000ms`");
    let m = e.message_text();
    let at: int = match e {
        IntervalError::MissingUnit => 5,
        IntervalError::Number(_) => 24,
    };
    assert(m.subrange(at, at + 4) == "`1s`"@);
    assert(occurs_at(m, "`1s`"@, at));
    assert(m.subrange(at + 7, at + 15) == "`1000ms`"@);
    assert(occurs_at(m, "`1000ms`"@, at + 7));
}

/// A text that, white space aside, does not end in `s` is refused for want
/// of a unit: no text is read as an interval without one.
pub proof fn lemma_interval_needs_unit(text: Seq<char>)
    ensures
        !has_suffix(trimmed(text), "s"@) ==> interval_millis(text) == Err::<nat, IntervalError>(
            IntervalError::MissingUnit,
        ),
        interval_millis(text) is Ok ==> has_suffix(trimmed(text), "s"@),
{
    reveal_strlit("ms");
    reveal_strlit("s");
    let t = trimmed(text);
    if has_suffix(t, "ms"@) {
        let tail = t.subrange(t.len() - 2, t.len() as int);
        assert(t.subrange(t.len() - 1, t.len() as int) == tail.subrange(1, 2));
        assert(tail.subrange(1, 2) == "s"@);
    }
}

} // verus!
