//! Decimal numbers: what a run of digits denotes, how a number is written,
//! and a parser that reads one with an upper bound.

use vstd::prelude::*;
use vstd::slice::slice_subrange;

verus! {

/// Why a numeric portion was refused.
#[derive(Clone, Copy, Debug, PartialEq, Eq, Structural)]
pub enum NumberError {
    /// There was nothing to read.
    Empty,
    /// A character other than a decimal digit stands where a digit is
    /// expected, or a sign stands alone.
    InvalidDigit,
    /// The digits read so far denote a number above the bound.
    Overflow,
}

impl NumberError {
    /// The words that tell an operator what went wrong.
    pub open spec fn message_text(self) -> Seq<char> {
        match self {
            NumberError::Empty => "cannot parse integer from empty string"@,
            NumberError::InvalidDigit => "invalid digit found in string"@,
            NumberError::Overflow => "number too large to fit in target type"@,
        }
    }

    /// Tells an operator what went wrong.
    pub fn message(&self) -> (r: &'static str)
        ensures
            r@ == self.message_text(),
    {
        match self {
            NumberError::Empty => "cannot parse integer from empty string",
            NumberError::InvalidDigit => "invalid digit found in string",
            NumberError::Overflow => "number too large to fit in target type",
        }
    }
}

/// Whether `c` is one of `0` to `9`.
pub open spec fn is_digit(c: char) -> bool {
    '0' <= c <= '9'
}

/// The number that the digit `c` denotes.
pub open spec fn digit_value(c: char) -> nat
    recommends
        is_digit(c),
{
    (c as u32 - '0' as u32) as nat
}

/// The character that writes the digit `d`.
pub open spec fn digit_char(d: nat) -> char
    recommends
        d < 10,
{
    ('0' as u32 + d) as char
}

/// Whether every character of `s` is a decimal digit.
pub open spec fn all_digits(s: Seq<char>) -> bool {
    forall|i: int| 0 <= i < s.len() ==> is_digit(#[trigger] s[i])
}

/// The number that the digits `s` denote, most significant digit first.
pub open spec fn decimal_value(s: Seq<char>) -> nat
    decreases s.len(),
{
    if s.len() == 0 {
        0
    } else {
        decimal_value(s.drop_last()) * 10 + digit_value(s.last())
    }
}

/// How `n` is written in decimal, without leading zeros.
pub open spec fn decimal_text(n: nat) -> Seq<char>
    decreases n,
{
    if n < 10 {
        seq![digit_char(n)]
    } else {
        decimal_text(n / 10).push(digit_char(n % 10))
    }
}

/// The number of decimal digits that `s` starts with.
pub open spec fn digit_run(s: Seq<char>) -> nat
    decreases s.len(),
{
    if s.len() > 0 && is_digit(s.first()) {
        1 + digit_run(s.drop_first())
    } else {
        0
    }
}

/// What `s` denotes as a number of at most `max`, where only digits are
/// admitted: one or more decimal digits and nothing else, no sign. The text
/// is read from the left and what is met first decides: digits that take
/// the number above the bound give `Overflow`, a character that is no digit
/// gives `InvalidDigit`.
pub open spec fn digits_number_of(s: Seq<char>, max: nat) -> Result<nat, NumberError> {
    let run = s.subrange(0, digit_run(s) as int);
    if s.len() == 0 {
        Err(NumberError::Empty)
    } else if decimal_value(run) > max {
        Err(NumberError::Overflow)
    } else if run.len() < s.len() {
        Err(NumberError::InvalidDigit)
    } else {
        Ok(decimal_value(s))
    }
}

/// The part of `s` where digits are expected: all of it but a leading `+`.
pub open spec fn unsigned_part(s: Seq<char>) -> Seq<char> {
    if s.len() > 0 && s.first() == '+' {
        s.drop_first()
    } else {
        s
    }
}

/// What `s` denotes as a number of at most `max`, where a sign is admitted:
/// an optional `+`, then what `digits_number_of` reads. A `+` alone is
/// refused as `InvalidDigit`.
pub open spec fn number_of(s: Seq<char>, max: nat) -> Result<nat, NumberError> {
    if s.len() == 0 {
        Err(NumberError::Empty)
    } else if unsigned_part(s).len() == 0 {
        Err(NumberError::InvalidDigit)
    } else {
        digits_number_of(unsigned_part(s), max)
    }
}

/// The digits that a text starts with are digits, they end where the text
/// ends or where a character is no digit, and they are the whole text
/// exactly when the text holds digits alone.
pub proof fn lemma_digit_run(s: Seq<char>)
    ensures
        digit_run(s) <= s.len(),
        all_digits(s.subrange(0, digit_run(s) as int)),
        digit_run(s) < s.len() ==> !is_digit(s[digit_run(s) as int]),
        all_digits(s) <==> digit_run(s) == s.len(),
    decreases s.len(),
{
    if s.len() > 0 && is_digit(s.first()) {
        let rest = s.drop_first();
        lemma_digit_run(rest);
        let k = digit_run(rest) as int;
        let run = s.subrange(0, k + 1);
        assert forall|i: int| 0 <= i < run.len() implies is_digit(#[trigger] run[i]) by {
            if i > 0 {
                assert(run[i] == rest.subrange(0, k)[i - 1]);
            }
        }
        if k < rest.len() {
            assert(s[k + 1] == rest[k]);
        }
        if all_digits(s) {
            assert forall|i: int| 0 <= i < rest.len() implies is_digit(#[trigger] rest[i]) by {
                assert(rest[i] == s[i + 1]);
            }
        }
        if k == rest.len() {
            assert(s.subrange(0, k + 1) == s);
        }
    } else if s.len() > 0 {
        assert(!is_digit(s[0]));
    }
}

/// Nothing but one or more digits that denote a number within the bound is
/// read as a number where only digits are admitted.
pub proof fn lemma_digits_alone(s: Seq<char>, max: nat)
    ensures
        digits_number_of(s, max) is Ok <==> s.len() > 0 && all_digits(s) && decimal_value(s)
            <= max,
        digits_number_of(s, max) is Ok ==> digits_number_of(s, max) == Ok::<nat, NumberError>(
            decimal_value(s),
        ),
{
    lemma_digit_run(s);
    if digit_run(s) == s.len() {
        assert(s.subrange(0, s.len() as int) == s);
    }
}

/// A non-empty run of digits denotes its number if that is within the
/// bound, and is refused as too large if it is not, with or without a sign
/// admitted.
pub proof fn lemma_number_of_digits(digits: Seq<char>, max: nat)
    requires
        digits.len() > 0,
        all_digits(digits),
    ensures
        digits_number_of(digits, max) == if decimal_value(digits) <= max {
            Ok::<nat, NumberError>(decimal_value(digits))
        } else {
            Err::<nat, NumberError>(NumberError::Overflow)
        },
        number_of(digits, max) == digits_number_of(digits, max),
{
    lemma_digit_run(digits);
    assert(digits.subrange(0, digits.len() as int) == digits);
    assert(is_digit(digits[0]));
}

/// A prefix of a run of digits denotes no more than the whole run.
pub proof fn lemma_decimal_value_prefix(s: Seq<char>, k: int)
    requires
        0 <= k <= s.len(),
    ensures
        decimal_value(s.subrange(0, k)) <= decimal_value(s),
    decreases s.len() - k,
{
    if k == s.len() {
        assert(s.subrange(0, k) == s);
    } else {
        lemma_decimal_value_prefix(s, k + 1);
        assert(s.subrange(0, k + 1).drop_last() == s.subrange(0, k));
    }
}

/// Writing a number and reading it back gives the number: its text is a
/// non-empty run of digits that denotes it.
pub proof fn lemma_decimal_text_round_trip(n: nat)
    ensures
        decimal_text(n).len() > 0,
        all_digits(decimal_text(n)),
        decimal_value(decimal_text(n)) == n,
    decreases n,
{
    if n < 10 {
        let t = decimal_text(n);
        assert(t.drop_last().len() == 0);
        assert(decimal_value(t.drop_last()) == 0);
    } else {
        lemma_decimal_text_round_trip(n / 10);
        let t = decimal_text(n);
        assert(t.drop_last() == decimal_text(n / 10));
        assert(t.last() == digit_char(n % 10));
    }
}

/// Tells whether `c` is a decimal digit.
pub fn is_decimal_digit(c: char) -> (b: bool)
    ensures
        b == is_digit(c),
{
    '0' <= c && c <= '9'
}

/// Reads `text`, digits alone, as a number of at most `max`.
pub fn parse_digits(text: &[char], max: u64) -> (r: Result<u64, NumberError>)
    ensures
        match r {
            Ok(v) => digits_number_of(text@, max as nat) == Ok::<nat, NumberError>(v as nat),
            Err(e) => digits_number_of(text@, max as nat) == Err::<nat, NumberError>(e),
        },
        r matches Ok(v) ==> v <= max,
{
    let n = text.len();
    if n == 0 {
        return Err(NumberError::Empty);
    }
    proof {
        lemma_digit_run(text@);
        assert(text@.subrange(0, n as int) == text@);
    }
    let mut value: u64 = 0;
    let mut i: usize = 0;
    while i < n
        invariant
            0 < n == text@.len(),
            i <= n,
            digit_run(text@) <= n,
            digit_run(text@) == i + digit_run(text@.subrange(i as int, n as int)),
            value <= max,
            value == decimal_value(text@.subrange(0, i as int)),
        decreases n - i,
    {
        let ghost rest = text@.subrange(i as int, n as int);
        assert(rest.first() == text@[i as int]);
        if !is_decimal_digit(text[i]) {
            return Err(NumberError::InvalidDigit);
        }
        let d: u32 = text[i] as u32 - '0' as u32;
        let next: u128 = value as u128 * 10 + d as u128;
        proof {
            let upto = text@.subrange(0, i + 1);
            let run = text@.subrange(0, digit_run(text@) as int);
            assert(rest.drop_first() == text@.subrange(i + 1, n as int));
            assert(upto.drop_last() == text@.subrange(0, i as int));
            assert(upto.last() == text@[i as int]);
            assert(decimal_value(upto) == next);
            assert(run.subrange(0, i + 1) == upto);
            lemma_decimal_value_prefix(run, i + 1);
        }
        if next > max as u128 {
            return Err(NumberError::Overflow);
        }
        value = next as u64;
        i += 1;
    }
    Ok(value)
}

/// Reads `text`, with or without a leading `+`, as a number of at most
/// `max`.
pub fn parse_number(text: &[char], max: u64) -> (r: Result<u64, NumberError>)
    ensures
        match r {
            Ok(v) => number_of(text@, max as nat) == Ok::<nat, NumberError>(v as nat),
            Err(e) => number_of(text@, max as nat) == Err::<nat, NumberError>(e),
        },
        r matches Ok(v) ==> v <= max,
{
    let n = text.len();
    if n == 0 {
        return Err(NumberError::Empty);
    }
    let start: usize = if text[0] == '+' {
        1
    } else {
        0
    };
    assert(unsigned_part(text@) == text@.subrange(start as int, n as int));
    if start == n {
        return Err(NumberError::InvalidDigit);
    }
    parse_digits(slice_subrange(text, start, n), max)
}

} // verus!
