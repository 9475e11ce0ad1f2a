//! The priority score by which the host chooses what to end first when
//! memory runs short: its range, and the text that is written to the host.

use vstd::prelude::*;
use vstd::string::*;
use crate::number::{decimal_text, digit_char};

verus! {

/// Smallest score the host accepts: the most protected.
pub const SCORE_MIN: i32 = -1000;

/// Largest score the host accepts: the first to go.
pub const SCORE_MAX: i32 = 1000;

/// Whether `score` lies in the closed range the host accepts.
pub open spec fn score_in_range(score: int) -> bool {
    SCORE_MIN <= score <= SCORE_MAX
}

/// How an integer is written in decimal: a minus sign if it is negative,
/// then its magnitude without leading zeros.
pub open spec fn int_text(i: int) -> Seq<char> {
    if i < 0 {
        seq!['-'] + decimal_text((-i) as nat)
    } else {
        decimal_text(i as nat)
    }
}

/// Tells whether `score` may be handed to the host.
pub fn is_valid_score(score: i32) -> (ok: bool)
    ensures
        ok == score_in_range(score as int),
{
    SCORE_MIN <= score && score <= SCORE_MAX
}

/// The one-character text of the digit `d`.
fn digit_str(d: u32) -> (r: &'static str)
    requires
        d < 10,
    ensures
        r@ == seq![digit_char(d as nat)],
{
    proof {
        reveal_strlit("0");
        reveal_strlit("1");
        reveal_strlit("2");
        reveal_strlit("3");
        reveal_strlit("4");
        reveal_strlit("5");
        reveal_strlit("6");
        reveal_strlit("7");
        reveal_strlit("8");
        reveal_strlit("9");
    }
    let r = match d {
        0 => "0",
        1 => "1",
        2 => "2",
        3 => "3",
        4 => "4",
        5 => "5",
        6 => "6",
        7 => "7",
        8 => "8",
        _ => "9",
    };
    assert(r@ =~= seq![digit_char(d as nat)]);
    r
}

/// Appends the decimal text of `n` to `out`.
fn append_decimal(out: &mut String, n: u32)
    ensures
        final(out)@ == old(out)@ + decimal_text(n as nat),
    decreases n,
{
    if n >= 10 {
        append_decimal(out, n / 10);
    }
    out.append(digit_str(n % 10));
}

/// The text that sets the score `score`: the score in decimal and nothing
/// else.
pub fn score_text(score: i32) -> (r: String)
    requires
        score_in_range(score as int),
    ensures
        r@ == int_text(score as int),
{
    let mut out = String::new();
    if score < 0 {
        proof {
            reveal_strlit("-");
        }
        out.append("-");
        append_decimal(&mut out, (-score) as u32);
    } else {
        append_decimal(&mut out, score as u32);
    }
    out
}

} // verus!
