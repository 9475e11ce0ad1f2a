//! Byte sizes: the parser that reads a number with an optional unit, decimal
//! (`k`, `kb`, `m`, `mb`, `g`, `gb`) or binary (`kib`, `mib`, `gib`), in
//! either case.

use vstd::prelude::*;
use vstd::slice::slice_subrange;
use vstd::utf8::is_ascii_chars;
use crate::number::{
    all_digits, decimal_text, decimal_value, is_digit, lemma_decimal_text_round_trip,
    lemma_number_of_digits, number_of, parse_number, NumberError,
};
use crate::text::{
    ascii_lower, chars_of, drop_suffix, ends_with, has_suffix, lemma_has_suffix_chars,
    lemma_lower_case_of_ascii, lemma_trimmed_ascii_lower, lemma_trimmed_unchanged, lower_case,
    lower_case_of, trim, trimmed,
};

verus! {

/// Bytes in a kilobyte.
pub const KILO: usize = 1_000;

/// Bytes in a megabyte.
pub const MEGA: usize = 1_000_000;

/// Bytes in a gigabyte.
pub const GIGA: usize = 1_000_000_000;

/// Bytes in a kibibyte, 2^10.
pub const KIBI: usize = 1_024;

/// Bytes in a mebibyte, 2^20.
pub const MEBI: usize = 1_048_576;

/// Bytes in a gibibyte, 2^30.
pub const GIBI: usize = 1_073_741_824;

/// `n` units of `scale` bytes each, if that many bytes can be counted in a
/// `usize`.
pub open spec fn bytes_of(n: nat, scale: nat) -> Result<nat, NumberError> {
    if n * scale <= usize::MAX {
        Ok(n * scale)
    } else {
        Err(NumberError::Overflow)
    }
}

/// The bytes that `t` denotes when its last `unit_len` characters are a unit
/// of `scale` bytes and the rest is the number.
pub open spec fn size_with_unit(t: Seq<char>, unit_len: nat, scale: nat) -> Result<
    nat,
    NumberError,
> {
    match number_of(drop_suffix(t, unit_len), usize::MAX as nat) {
        Ok(n) => bytes_of(n, scale),
        Err(e) => Err(e),
    }
}

/// The bytes that a trimmed text in lower case denotes. The unit is the
/// ending, a longer unit before any shorter one that ends it too; all that
/// precedes it is the number. A text without a unit counts bytes.
pub open spec fn lowercase_size(t: Seq<char>) -> Result<nat, NumberError> {
    if has_suffix(t, "gib"@) {
        size_with_unit(t, 3, GIBI as nat)
    } else if has_suffix(t, "gb"@) {
        size_with_unit(t, 2, GIGA as nat)
    } else if has_suffix(t, "g"@) {
        size_with_unit(t, 1, GIGA as nat)
    } else if has_suffix(t, "mib"@) {
        size_with_unit(t, 3, MEBI as nat)
    } else if has_suffix(t, "mb"@) {
        size_with_unit(t, 2, MEGA as nat)
    } else if has_suffix(t, "m"@) {
        size_with_unit(t, 1, MEGA as nat)
    } else if has_suffix(t, "kib"@) {
        size_with_unit(t, 3, KIBI as nat)
    } else if has_suffix(t, "kb"@) {
        size_with_unit(t, 2, KILO as nat)
    } else if has_suffix(t, "k"@) {
        size_with_unit(t, 1, KILO as nat)
    } else if has_suffix(t, "b"@) {
        size_with_unit(t, 1, 1)
    } else {
        size_with_unit(t, 0, 1)
    }
}

/// The bytes in one unit named `unit`, in lower case; `None` if there is no
/// such unit. The empty name stands for a text without a unit.
pub open spec fn unit_scale(unit: Seq<char>) -> Option<nat> {
    if unit == "gib"@ {
        Some(GIBI as nat)
    } else if unit == "gb"@ || unit == "g"@ {
        Some(GIGA as nat)
    } else if unit == "mib"@ {
        Some(MEBI as nat)
    } else if unit == "mb"@ || unit == "m"@ {
        Some(MEGA as nat)
    } else if unit == "kib"@ {
        Some(KIBI as nat)
    } else if unit == "kb"@ || unit == "k"@ {
        Some(KILO as nat)
    } else if unit == "b"@ || unit.len() == 0 {
        Some(1)
    } else {
        None
    }
}

/// The bytes that `text` denotes: white space around it is ignored and
/// capital letters count as their lower-case forms.
pub open spec fn size_in_bytes(text: Seq<char>) -> Result<nat, NumberError> {
    lowercase_size(lower_case_of(trimmed(text)))
}

/// What a parser's result says as a number of bytes.
pub open spec fn in_bytes(r: Result<usize, NumberError>) -> Result<nat, NumberError> {
    match r {
        Ok(bytes) => Ok(bytes as nat),
        Err(e) => Err(e),
    }
}

/// Reads the number before a unit of `unit_len` characters and multiplies it
/// by `scale`.
fn parse_with_unit(text: &[char], unit_len: usize, scale: usize) -> (r: Result<usize, NumberError>)
    requires
        unit_len <= text@.len(),
    ensures
        in_bytes(r) == size_with_unit(text@, unit_len as nat, scale as nat),
{
    let number = slice_subrange(text, 0, text.len() - unit_len);
    match parse_number(number, usize::MAX as u64) {
        Ok(n) => match (n as usize).checked_mul(scale) {
            Some(bytes) => Ok(bytes),
            None => Err(NumberError::Overflow),
        },
        Err(e) => Err(e),
    }
}

/// Reads a size from a text that is already trimmed and in lower case, such
/// as `10gib` or `123`.
pub fn parse_lowercase_size(text: &str) -> (r: Result<usize, NumberError>)
    ensures
        in_bytes(r) == lowercase_size(text@),
{
    let chars = chars_of(text);
    let t = chars.as_slice();
    proof {
        reveal_strlit("gib");
        reveal_strlit("gb");
        reveal_strlit("g");
        reveal_strlit("mib");
        reveal_strlit("mb");
        reveal_strlit("m");
        reveal_strlit("kib");
        reveal_strlit("kb");
        reveal_strlit("k");
        reveal_strlit("b");
    }
    if ends_with(t, "gib") {
        parse_with_unit(t, 3, GIBI)
    } else if ends_with(t, "gb") {
        parse_with_unit(t, 2, GIGA)
    } else if ends_with(t, "g") {
        parse_with_unit(t, 1, GIGA)
    } else if ends_with(t, "mib") {
        parse_with_unit(t, 3, MEBI)
    } else if ends_with(t, "mb") {
        parse_with_unit(t, 2, MEGA)
    } else if ends_with(t, "m") {
        parse_with_unit(t, 1, MEGA)
    } else if ends_with(t, "kib") {
        parse_with_unit(t, 3, KIBI)
    } else if ends_with(t, "kb") {
        parse_with_unit(t, 2, KILO)
    } else if ends_with(t, "k") {
        parse_with_unit(t, 1, KILO)
    } else if ends_with(t, "b") {
        parse_with_unit(t, 1, 1)
    } else {
        parse_with_unit(t, 0, 1)
    }
}

/// Reads a size such as `10GiB`, `10gb`, `1B` or `123`. The number may have
/// a `+` before its digits.
pub fn convert_si_size(value: &str) -> (r: Result<usize, NumberError>)
    ensures
        in_bytes(r) == size_in_bytes(value@),
{
    let lower = lower_case(trim(value));
    parse_lowercase_size(lower.as_str())
}

/// Whether `t` ends with the character `a`.
spec fn ends_in1(t: Seq<char>, a: char) -> bool {
    t.len() >= 1 && t[t.len() - 1] == a
}

/// Whether `t` ends with the characters `a`, `b`.
spec fn ends_in2(t: Seq<char>, a: char, b: char) -> bool {
    t.len() >= 2 && t[t.len() - 2] == a && t[t.len() - 1] == b
}

/// Whether `t` ends with the characters `a`, `b`, `c`.
spec fn ends_in3(t: Seq<char>, a: char, b: char, c: char) -> bool {
    t.len() >= 3 && t[t.len() - 3] == a && t[t.len() - 2] == b && t[t.len() - 1] == c
}

proof fn lemma_suffix1(t: Seq<char>, a: char)
    ensures
        has_suffix(t, seq![a]) <==> ends_in1(t, a),
{
    let suffix = seq![a];
    lemma_has_suffix_chars(t, suffix);
    if ends_in1(t, a) {
        assert forall|i: int| 0 <= i < suffix.len() implies t[t.len() - suffix.len() + i]
            == #[trigger] suffix[i] by {}
    }
    if has_suffix(t, suffix) {
        assert(t[t.len() - 1 + 0] == suffix[0]);
    }
}

proof fn lemma_suffix2(t: Seq<char>, a: char, b: char)
    ensures
        has_suffix(t, seq![a, b]) <==> ends_in2(t, a, b),
{
    let suffix = seq![a, b];
    lemma_has_suffix_chars(t, suffix);
    if ends_in2(t, a, b) {
        assert forall|i: int| 0 <= i < suffix.len() implies t[t.len() - suffix.len() + i]
            == #[trigger] suffix[i] by {}
    }
    if has_suffix(t, suffix) {
        assert(t[t.len() - 2 + 0] == suffix[0]);
        assert(t[t.len() - 2 + 1] == suffix[1]);
    }
}

proof fn lemma_suffix3(t: Seq<char>, a: char, b: char, c: char)
    ensures
        has_suffix(t, seq![a, b, c]) <==> ends_in3(t, a, b, c),
{
    let suffix = seq![a, b, c];
    lemma_has_suffix_chars(t, suffix);
    if ends_in3(t, a, b, c) {
        assert forall|i: int| 0 <= i < suffix.len() implies t[t.len() - suffix.len() + i]
            == #[trigger] suffix[i] by {}
    }
    if has_suffix(t, suffix) {
        assert(t[t.len() - 3 + 0] == suffix[0]);
        assert(t[t.len() - 3 + 1] == suffix[1]);
        assert(t[t.len() - 3 + 2] == suffix[2]);
    }
}

/// The characters of each unit.
proof fn lemma_unit_names()
    ensures
        "gib"@ == seq!['g', 'i', 'b'],
        "gb"@ == seq!['g', 'b'],
        "g"@ == seq!['g'],
        "mib"@ == seq!['m', 'i', 'b'],
        "mb"@ == seq!['m', 'b'],
        "m"@ == seq!['m'],
        "kib"@ == seq!['k', 'i', 'b'],
        "kb"@ == seq!['k', 'b'],
        "k"@ == seq!['k'],
        "b"@ == seq!['b'],
{
    reveal_strlit("gib");
    reveal_strlit("gb");
    reveal_strlit("g");
    reveal_strlit("mib");
    reveal_strlit("mb");
    reveal_strlit("m");
    reveal_strlit("kib");
    reveal_strlit("kb");
    reveal_strlit("k");
    reveal_strlit("b");
    assert("gib"@ =~= seq!['g', 'i', 'b']);
    assert("gb"@ =~= seq!['g', 'b']);
    assert("g"@ =~= seq!['g']);
    assert("mib"@ =~= seq!['m', 'i', 'b']);
    assert("mb"@ =~= seq!['m', 'b']);
    assert("m"@ =~= seq!['m']);
    assert("kib"@ =~= seq!['k', 'i', 'b']);
    assert("kb"@ =~= seq!['k', 'b']);
    assert("k"@ =~= seq!['k']);
    assert("b"@ =~= seq!['b']);
}

/// Which unit a text ends with, told by its last characters.
proof fn lemma_unit_endings(t: Seq<char>)
    ensures
        has_suffix(t, "gib"@) <==> ends_in3(t, 'g', 'i', 'b'),
        has_suffix(t, "gb"@) <==> ends_in2(t, 'g', 'b'),
        has_suffix(t, "g"@) <==> ends_in1(t, 'g'),
        has_suffix(t, "mib"@) <==> ends_in3(t, 'm', 'i', 'b'),
        has_suffix(t, "mb"@) <==> ends_in2(t, 'm', 'b'),
        has_suffix(t, "m"@) <==> ends_in1(t, 'm'),
        has_suffix(t, "kib"@) <==> ends_in3(t, 'k', 'i', 'b'),
        has_suffix(t, "kb"@) <==> ends_in2(t, 'k', 'b'),
        has_suffix(t, "k"@) <==> ends_in1(t, 'k'),
        has_suffix(t, "b"@) <==> ends_in1(t, 'b'),
{
    lemma_unit_names();
    lemma_suffix3(t, 'g', 'i', 'b');
    lemma_suffix2(t, 'g', 'b');
    lemma_suffix1(t, 'g');
    lemma_suffix3(t, 'm', 'i', 'b');
    lemma_suffix2(t, 'm', 'b');
    lemma_suffix1(t, 'm');
    lemma_suffix3(t, 'k', 'i', 'b');
    lemma_suffix2(t, 'k', 'b');
    lemma_suffix1(t, 'k');
    lemma_suffix1(t, 'b');
}

/// The last `k` characters of `t`.
pub open spec fn ending(t: Seq<char>, k: nat) -> Seq<char>
    recommends
        k <= t.len(),
{
    t.subrange(t.len() - k, t.len() as int)
}

/// The unit of a text is the longest unit name that ends it: where the last
/// `k` characters name a unit and no longer ending does, they are the unit
/// and what precedes them is the number.
pub proof fn lemma_longest_unit_wins(t: Seq<char>, k: nat)
    requires
        k <= t.len(),
        unit_scale(ending(t, k)) is Some,
        forall|j: nat| k < j <= t.len() ==> unit_scale(#[trigger] ending(t, j)) is None,
    ensures
        lowercase_size(t) == size_with_unit(t, k, unit_scale(ending(t, k)).unwrap()),
{
    lemma_unit_names();
    lemma_unit_endings(t);
    if t.len() >= 1 {
        let e = ending(t, 1);
        assert(e.len() == 1 && e[0] == t[t.len() - 1]);
        assert(e == seq![e[0]]);
    }
    if t.len() >= 2 {
        let e = ending(t, 2);
        assert(e.len() == 2 && e[0] == t[t.len() - 2] && e[1] == t[t.len() - 1]);
        assert(e == seq![e[0], e[1]]);
    }
    if t.len() >= 3 {
        let e = ending(t, 3);
        assert(e.len() == 3);
        assert(e[0] == t[t.len() - 3] && e[1] == t[t.len() - 2] && e[2] == t[t.len() - 1]);
        assert(e == seq![e[0], e[1], e[2]]);
    }
    assert(ending(t, k).len() == k);
    assert(k <= 3);
}

/// A non-empty run of digits followed by a unit in lower case denotes the
/// digits' number times the bytes in that unit.
pub proof fn lemma_lowercase_size_of_digits(digits: Seq<char>, unit: Seq<char>)
    requires
        digits.len() > 0,
        all_digits(digits),
        unit_scale(unit) is Some,
    ensures
        lowercase_size(digits + unit) == bytes_of(decimal_value(digits), unit_scale(unit).unwrap()),
{
    let t = digits + unit;
    let scale = unit_scale(unit).unwrap();
    let n = decimal_value(digits);
    lemma_number_of_digits(digits, usize::MAX as nat);
    assert(drop_suffix(t, unit.len()) == digits);
    assert(n > usize::MAX ==> n * scale > usize::MAX) by (nonlinear_arith)
        requires
            scale >= 1,
    ;
    assert(size_with_unit(t, unit.len(), scale) == bytes_of(n, scale));
    assert(lowercase_size(t) == size_with_unit(t, unit.len(), scale)) by {
        lemma_unit_names();
        lemma_unit_endings(t);
        let last_digit = digits[digits.len() - 1];
        assert(is_digit(last_digit));
        assert(t[digits.len() - 1] == last_digit);
        if unit.len() == 0 {
            assert(t[t.len() - 1] == last_digit);
        } else if unit.len() == 1 {
            assert(t[t.len() - 1] == unit[0]);
            assert(t[t.len() - 2] == last_digit);
        } else if unit.len() == 2 {
            assert(t[t.len() - 1] == unit[1]);
            assert(t[t.len() - 2] == unit[0]);
            assert(t[t.len() - 3] == last_digit);
        } else {
            assert(unit.len() == 3);
            assert(t[t.len() - 1] == unit[2]);
            assert(t[t.len() - 2] == unit[1]);
            assert(t[t.len() - 3] == unit[0]);
        }
    }
}

/// A number written in decimal and followed by a unit, in whatever case the
/// unit's letters are, denotes the number times the bytes in that unit.
pub proof fn lemma_size_of_number(n: nat, unit: Seq<char>)
    requires
        is_ascii_chars(unit),
        unit_scale(ascii_lower(unit)) is Some,
    ensures
        size_in_bytes(decimal_text(n) + unit) == bytes_of(
            n,
            unit_scale(ascii_lower(unit)).unwrap(),
        ),
{
    let digits = decimal_text(n);
    let text = digits + unit;
    let lower = ascii_lower(unit);
    lemma_decimal_text_round_trip(n);
    assert(is_digit(digits[0]));
    assert(is_digit(digits[digits.len() - 1]));
    assert(trimmed(text) == text) by {
        lemma_unit_names();
        assert(text.first() == digits[0]);
        if unit.len() == 0 {
            assert(text.last() == digits[digits.len() - 1]);
        } else {
            assert(text.last() == unit.last());
            assert(lower.last() == lower[unit.len() - 1]);
        }
        lemma_trimmed_unchanged(text);
    }
    assert(is_ascii_chars(text)) by {
        assert forall|i: int| 0 <= i < text.len() implies '\0' <= #[trigger] text[i]
            <= '\u{7f}' by {
            if i < digits.len() {
                assert(is_digit(digits[i]));
            } else {
                assert(text[i] == unit[i - digits.len()]);
            }
        }
    }
    lemma_lower_case_of_ascii(text);
    assert(ascii_lower(text) == digits + lower) by {
        assert forall|i: int| 0 <= i < text.len() implies ascii_lower(text)[i] == (digits
            + lower)[i] by {
            if i < digits.len() {
                assert(is_digit(digits[i]));
            } else {
                assert(text[i] == unit[i - digits.len()]);
            }
        }
    }
    lemma_lowercase_size_of_digits(digits, lower);
}

/// The bytes in each unit.
proof fn lemma_unit_scales()
    ensures
        unit_scale("gib"@) == Some(GIBI as nat),
        unit_scale("gb"@) == Some(GIGA as nat),
        unit_scale("g"@) == Some(GIGA as nat),
        unit_scale("mib"@) == Some(MEBI as nat),
        unit_scale("mb"@) == Some(MEGA as nat),
        unit_scale("m"@) == Some(MEGA as nat),
        unit_scale("kib"@) == Some(KIBI as nat),
        unit_scale("kb"@) == Some(KILO as nat),
        unit_scale("k"@) == Some(KILO as nat),
        unit_scale("b"@) == Some(1nat),
        unit_scale(Seq::<char>::empty()) == Some(1nat),
{
    lemma_unit_names();
    assert("gib"@.len() == 3 && "mib"@.len() == 3 && "kib"@.len() == 3);
    assert("gb"@.len() == 2 && "mb"@.len() == 2 && "kb"@.len() == 2);
    assert("g"@.len() == 1 && "m"@.len() == 1 && "k"@.len() == 1 && "b"@.len() == 1);
    assert("gib"@[0] == 'g' && "mib"@[0] == 'm' && "kib"@[0] == 'k');
    assert("gb"@[0] == 'g' && "mb"@[0] == 'm' && "kb"@[0] == 'k');
    assert("g"@[0] == 'g' && "m"@[0] == 'm' && "k"@[0] == 'k' && "b"@[0] == 'b');
}

/// `lemma_size_of_number` for a unit whose lower-case form and scale are
/// given.
proof fn lemma_size_of_unit(n: nat, unit: Seq<char>, lower: Seq<char>, scale: nat)
    requires
        is_ascii_chars(unit),
        ascii_lower(unit) == lower,
        unit_scale(lower) == Some(scale),
    ensures
        size_in_bytes(decimal_text(n) + unit) == bytes_of(n, scale),
{
    lemma_size_of_number(n, unit);
}

proof fn lemma_size_b(n: nat)
    ensures
        size_in_bytes(decimal_text(n) + "B"@) == bytes_of(n, 1),
{
    assert(is_ascii_chars("B"@) && ascii_lower("B"@) == "b"@) by {
        reveal_strlit("B");
        reveal_strlit("b");
    }
    assert(unit_scale("b"@) == Some(1nat)) by {
        lemma_unit_scales();
    }
    lemma_size_of_unit(n, "B"@, "b"@, 1);
}

proof fn lemma_size_gib(n: nat)
    ensures
        size_in_bytes(decimal_text(n) + "GiB"@) == bytes_of(n, GIBI as nat),
{
    assert(is_ascii_chars("GiB"@) && ascii_lower("GiB"@) == "gib"@) by {
        reveal_strlit("GiB");
        reveal_strlit("gib");
    }
    assert(unit_scale("gib"@) == Some(GIBI as nat)) by {
        lemma_unit_scales();
    }
    lemma_size_of_unit(n, "GiB"@, "gib"@, GIBI as nat);
}

proof fn lemma_size_gb(n: nat)
    ensures
        size_in_bytes(decimal_text(n) + "GB"@) == bytes_of(n, GIGA as nat),
{
    assert(is_ascii_chars("GB"@) && ascii_lower("GB"@) == "gb"@) by {
        reveal_strlit("GB");
        reveal_strlit("gb");
    }
    assert(unit_scale("gb"@) == Some(GIGA as nat)) by {
        lemma_unit_scales();
    }
    lemma_size_of_unit(n, "GB"@, "gb"@, GIGA as nat);
}

proof fn lemma_size_g(n: nat)
    ensures
        size_in_bytes(decimal_text(n) + "G"@) == bytes_of(n, GIGA as nat),
{
    assert(is_ascii_chars("G"@) && ascii_lower("G"@) == "g"@) by {
        reveal_strlit("G");
        reveal_strlit("g");
    }
    assert(unit_scale("g"@) == Some(GIGA as nat)) by {
        lemma_unit_scales();
    }
    lemma_size_of_unit(n, "G"@, "g"@, GIGA as nat);
}

proof fn lemma_size_mib(n: nat)
    ensures
        size_in_bytes(decimal_text(n) + "MiB"@) == bytes_of(n, MEBI as nat),
{
    assert(is_ascii_chars("MiB"@) && ascii_lower("MiB"@) == "mib"@) by {
        reveal_strlit("MiB");
        reveal_strlit("mib");
    }
    assert(unit_scale("mib"@) == Some(MEBI as nat)) by {
        lemma_unit_scales();
    }
    lemma_size_of_unit(n, "MiB"@, "mib"@, MEBI as nat);
}

proof fn lemma_size_mb(n: nat)
    ensures
        size_in_bytes(decimal_text(n) + "MB"@) == bytes_of(n, MEGA as nat),
{
    assert(is_ascii_chars("MB"@) && ascii_lower("MB"@) == "mb"@) by {
        reveal_strlit("MB");
        reveal_strlit("mb");
    }
    assert(unit_scale("mb"@) == Some(MEGA as nat)) by {
        lemma_unit_scales();
    }
    lemma_size_of_unit(n, "MB"@, "mb"@, MEGA as nat);
}

proof fn lemma_size_m(n: nat)
    ensures
        size_in_bytes(decimal_text(n) + "M"@) == bytes_of(n, MEGA as nat),
{
    assert(is_ascii_chars("M"@) && ascii_lower("M"@) == "m"@) by {
        reveal_strlit("M");
        reveal_strlit("m");
    }
    assert(unit_scale("m"@) == Some(MEGA as nat)) by {
        lemma_unit_scales();
    }
    lemma_size_of_unit(n, "M"@, "m"@, MEGA as nat);
}

proof fn lemma_size_kib(n: nat)
    ensures
        size_in_bytes(decimal_text(n) + "KiB"@) == bytes_of(n, KIBI as nat),
{
    assert(is_ascii_chars("KiB"@) && ascii_lower("KiB"@) == "kib"@) by {
        reveal_strlit("KiB");
        reveal_strlit("kib");
    }
    assert(unit_scale("kib"@) == Some(KIBI as nat)) by {
        lemma_unit_scales();
    }
    lemma_size_of_unit(n, "KiB"@, "kib"@, KIBI as nat);
}

proof fn lemma_size_kb(n: nat)
    ensures
        size_in_bytes(decimal_text(n) + "KB"@) == bytes_of(n, KILO as nat),
{
    assert(is_ascii_chars("KB"@) && ascii_lower("KB"@) == "kb"@) by {
        reveal_strlit("KB");
        reveal_strlit("kb");
    }
    assert(unit_scale("kb"@) == Some(KILO as nat)) by {
        lemma_unit_scales();
    }
    lemma_size_of_unit(n, "KB"@, "kb"@, KILO as nat);
}

proof fn lemma_size_k(n: nat)
    ensures
        size_in_bytes(decimal_text(n) + "K"@) == bytes_of(n, KILO as nat),
{
    assert(is_ascii_chars("K"@) && ascii_lower("K"@) == "k"@) by {
        reveal_strlit("K");
        reveal_strlit("k");
    }
    assert(unit_scale("k"@) == Some(KILO as nat)) by {
        lemma_unit_scales();
    }
    lemma_size_of_unit(n, "K"@, "k"@, KILO as nat);
}

proof fn lemma_size_bare(n: nat)
    ensures
        size_in_bytes(decimal_text(n)) == bytes_of(n, 1),
{
    let none = Seq::<char>::empty();
    assert(ascii_lower(none) == none);
    assert(decimal_text(n) + none == decimal_text(n));
    assert(unit_scale(none) == Some(1nat)) by {
        lemma_unit_scales();
    }
    lemma_size_of_unit(n, none, none, 1);
}

/// A number written in decimal denotes that many bytes, with the unit `B`
/// or without a unit.
pub proof fn lemma_size_in_bytes(n: nat)
    requires
        n <= usize::MAX,
    ensures
        size_in_bytes(decimal_text(n) + "B"@) == Ok::<nat, NumberError>(n),
        size_in_bytes(decimal_text(n)) == Ok::<nat, NumberError>(n),
{
    lemma_size_b(n);
    lemma_size_bare(n);
}

/// `GiB` multiplies by 2^30, `GB` and `G` by 10^9. Where the decimal result
/// can be counted at all, it differs from the binary one for every number
/// but zero.
pub proof fn lemma_size_in_giga(n: nat)
    ensures
        size_in_bytes(decimal_text(n) + "GiB"@) == bytes_of(n, GIBI as nat),
        size_in_bytes(decimal_text(n) + "GB"@) == bytes_of(n, GIGA as nat),
        size_in_bytes(decimal_text(n) + "G"@) == bytes_of(n, GIGA as nat),
        0 < n && n * GIGA <= usize::MAX ==> size_in_bytes(decimal_text(n) + "GiB"@)
            != size_in_bytes(decimal_text(n) + "GB"@),
{
    lemma_size_gib(n);
    lemma_size_gb(n);
    lemma_size_g(n);
    assert(0 < n ==> n * GIGA < n * GIBI) by (nonlinear_arith);
}

/// `MiB` multiplies by 2^20, `MB` and `M` by 10^6. Where the decimal result
/// can be counted at all, it differs from the binary one for every number
/// but zero.
pub proof fn lemma_size_in_mega(n: nat)
    ensures
        size_in_bytes(decimal_text(n) + "MiB"@) == bytes_of(n, MEBI as nat),
        size_in_bytes(decimal_text(n) + "MB"@) == bytes_of(n, MEGA as nat),
        size_in_bytes(decimal_text(n) + "M"@) == bytes_of(n, MEGA as nat),
        0 < n && n * MEGA <= usize::MAX ==> size_in_bytes(decimal_text(n) + "MiB"@)
            != size_in_bytes(decimal_text(n) + "MB"@),
{
    lemma_size_mib(n);
    lemma_size_mb(n);
    lemma_size_m(n);
    assert(0 < n ==> n * MEGA < n * MEBI) by (nonlinear_arith);
}

/// `KiB` multiplies by 2^10, `KB` and `K` by 10^3. Where the decimal result
/// can be counted at all, it differs from the binary one for every number
/// but zero.
pub proof fn lemma_size_in_kilo(n: nat)
    ensures
        size_in_bytes(decimal_text(n) + "KiB"@) == bytes_of(n, KIBI as nat),
        size_in_bytes(decimal_text(n) + "KB"@) == bytes_of(n, KILO as nat),
        size_in_bytes(decimal_text(n) + "K"@) == bytes_of(n, KILO as nat),
        0 < n && n * KILO <= usize::MAX ==> size_in_bytes(decimal_text(n) + "KiB"@)
            != size_in_bytes(decimal_text(n) + "KB"@),
{
    lemma_size_kib(n);
    lemma_size_kb(n);
    lemma_size_k(n);
    assert(0 < n ==> n * KILO < n * KIBI) by (nonlinear_arith);
}

/// The case of ASCII letters does not matter: two texts that are equal once
/// their ASCII capital letters are lowered denote the same size, whatever
/// other characters they hold.
pub proof fn lemma_size_ignores_case(a: Seq<char>, b: Seq<char>)
    requires
        ascii_lower(a) == ascii_lower(b),
    ensures
        size_in_bytes(a) == size_in_bytes(b),
{
    lemma_trimmed_ascii_lower(a);
    lemma_trimmed_ascii_lower(b);
}

/// The case of the unit does not matter: behind the same number, two units
/// that are equal once their ASCII capital letters are lowered give the
/// same size, or are refused alike.
pub proof fn lemma_size_ignores_unit_case(number: Seq<char>, unit_a: Seq<char>, unit_b: Seq<char>)
    requires
        ascii_lower(unit_a) == ascii_lower(unit_b),
    ensures
        size_in_bytes(number + unit_a) == size_in_bytes(number + unit_b),
{
    assert(ascii_lower(number + unit_a) == ascii_lower(number) + ascii_lower(unit_a));
    assert(ascii_lower(number + unit_b) == ascii_lower(number) + ascii_lower(unit_b));
    lemma_size_ignores_case(number + unit_a, number + unit_b);
}

} // verus!
