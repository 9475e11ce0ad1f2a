//! Character-level helpers shared by the parsers and the host check: white
//! space and trimming, occurrences and endings, and lower case.

use vstd::prelude::*;
use vstd::string::*;
use vstd::utf8::is_ascii_chars;

verus! {

/// Whether `c` carries the Unicode property `White_Space`.
pub open spec fn is_white_space(c: char) -> bool {
    let u = c as u32;
    ||| 0x09 <= u <= 0x0d
    ||| u == 0x20
    ||| u == 0x85
    ||| u == 0xa0
    ||| u == 0x1680
    ||| 0x2000 <= u <= 0x200a
    ||| u == 0x2028
    ||| u == 0x2029
    ||| u == 0x202f
    ||| u == 0x205f
    ||| u == 0x3000
}

/// Tells whether `c` is white space.
pub fn is_space(c: char) -> (b: bool)
    ensures
        b == is_white_space(c),
{
    let u: u32 = c as u32;
    (0x09 <= u && u <= 0x0d) || u == 0x20 || u == 0x85 || u == 0xa0 || u == 0x1680 || (0x2000 <= u
        && u <= 0x200a) || u == 0x2028 || u == 0x2029 || u == 0x202f || u == 0x205f || u == 0x3000
}

/// The characters of `text`, in order.
pub fn chars_of(text: &str) -> (chars: Vec<char>)
    ensures
        chars@ == text@,
{
    let n = text.unicode_len();
    let mut chars: Vec<char> = Vec::with_capacity(n);
    let mut i: usize = 0;
    while i < n
        invariant
            n == text@.len(),
            i <= n,
            chars@ == text@.subrange(0, i as int),
        decreases n - i,
    {
        chars.push(text.get_char(i));
        i += 1;
    }
    chars
}

/// `s` without its leading white space.
pub open spec fn trim_start(s: Seq<char>) -> Seq<char>
    decreases s.len(),
{
    if s.len() > 0 && is_white_space(s.first()) {
        trim_start(s.drop_first())
    } else {
        s
    }
}

/// `s` without its trailing white space.
pub open spec fn trim_end(s: Seq<char>) -> Seq<char>
    decreases s.len(),
{
    if s.len() > 0 && is_white_space(s.last()) {
        trim_end(s.drop_last())
    } else {
        s
    }
}

/// `s` without white space at either end.
pub open spec fn trimmed(s: Seq<char>) -> Seq<char> {
    trim_end(trim_start(s))
}

/// Trimming leaves alone a text that neither starts nor ends with white
/// space.
pub proof fn lemma_trimmed_unchanged(s: Seq<char>)
    requires
        s.len() > 0 ==> !is_white_space(s.first()) && !is_white_space(s.last()),
    ensures
        trimmed(s) == s,
{
}

/// Strips the white space at both ends of `text`.
pub fn trim(text: &str) -> (r: &str)
    ensures
        r@ == trimmed(text@),
{
    let chars = chars_of(text);
    let n = chars.len();
    let mut start: usize = 0;
    assert(chars@.subrange(0, n as int) == chars@);
    while start < n && is_space(chars[start])
        invariant
            n == chars@.len(),
            start <= n,
            trim_start(chars@) == trim_start(chars@.subrange(start as int, n as int)),
        decreases n - start,
    {
        assert(chars@.subrange(start as int, n as int).drop_first() == chars@.subrange(
            start + 1,
            n as int,
        ));
        start += 1;
    }
    let mut end: usize = n;
    while end > start && is_space(chars[end - 1])
        invariant
            n == chars@.len(),
            start <= end <= n,
            trim_end(chars@.subrange(start as int, n as int)) == trim_end(
                chars@.subrange(start as int, end as int),
            ),
        decreases end,
    {
        assert(chars@.subrange(start as int, end as int).drop_last() == chars@.subrange(
            start as int,
            end - 1,
        ));
        end -= 1;
    }
    text.substring_char(start, end)
}

/// Whether `pattern` stands in `s` at position `at`.
pub open spec fn occurs_at(s: Seq<char>, pattern: Seq<char>, at: int) -> bool {
    0 <= at && at + pattern.len() <= s.len() && s.subrange(at, at + pattern.len()) == pattern
}

/// Whether `pattern` stands somewhere in `s`.
pub open spec fn occurs(s: Seq<char>, pattern: Seq<char>) -> bool {
    exists|at: int| occurs_at(s, pattern, at)
}

/// Whether `s` ends with `suffix`.
pub open spec fn has_suffix(s: Seq<char>, suffix: Seq<char>) -> bool {
    occurs_at(s, suffix, s.len() - suffix.len())
}

/// `s` without its last `k` characters.
pub open spec fn drop_suffix(s: Seq<char>, k: nat) -> Seq<char>
    recommends
        k <= s.len(),
{
    s.subrange(0, s.len() - k)
}

/// A text ends with a suffix exactly when it is long enough and its last
/// characters are those of the suffix, one by one.
pub proof fn lemma_has_suffix_chars(s: Seq<char>, suffix: Seq<char>)
    ensures
        has_suffix(s, suffix) <==> suffix.len() <= s.len() && forall|i: int|
            0 <= i < suffix.len() ==> s[s.len() - suffix.len() + i] == #[trigger] suffix[i],
{
    if suffix.len() <= s.len() {
        let tail = s.subrange(s.len() - suffix.len(), s.len() as int);
        if forall|i: int|
            0 <= i < suffix.len() ==> s[s.len() - suffix.len() + i] == #[trigger] suffix[i] {
            assert(tail == suffix);
        }
        if tail == suffix {
            assert forall|i: int| 0 <= i < suffix.len() implies s[s.len() - suffix.len() + i]
                == #[trigger] suffix[i] by {
                assert(tail[i] == suffix[i]);
            }
        }
    }
}

/// Tells whether `pattern` stands in `text` at position `at`.
fn matches_at(text: &[char], pattern: &[char], at: usize) -> (b: bool)
    requires
        at + pattern@.len() <= text@.len(),
    ensures
        b == occurs_at(text@, pattern@, at as int),
{
    let n = text.len();
    let k = pattern.len();
    let ghost window = text@.subrange(at as int, at + k);
    let mut i: usize = 0;
    while i < k
        invariant
            n == text@.len(),
            k == pattern@.len(),
            at + k <= n,
            i <= k,
            window == text@.subrange(at as int, at + k),
            window.subrange(0, i as int) == pattern@.subrange(0, i as int),
        decreases k - i,
    {
        if text[at + i] != pattern[i] {
            assert(window[i as int] != pattern@[i as int]);
            return false;
        }
        assert(window.subrange(0, i + 1) == window.subrange(0, i as int).push(window[i as int]));
        assert(pattern@.subrange(0, i + 1) == pattern@.subrange(0, i as int).push(
            pattern@[i as int],
        ));
        i += 1;
    }
    assert(window.subrange(0, k as int) == window);
    assert(pattern@.subrange(0, k as int) == pattern@);
    true
}

/// Tells whether `text` ends with `suffix`.
pub fn ends_with(text: &[char], suffix: &str) -> (b: bool)
    ensures
        b == has_suffix(text@, suffix@),
{
    let pattern = chars_of(suffix);
    let n = text.len();
    let k = pattern.len();
    k <= n && matches_at(text, pattern.as_slice(), n - k)
}

/// Tells whether `pattern` stands somewhere in `text`.
pub fn contains(text: &str, pattern: &str) -> (b: bool)
    ensures
        b == occurs(text@, pattern@),
{
    let t = chars_of(text);
    let p = chars_of(pattern);
    let n = t.len();
    let k = p.len();
    if k > n {
        return false;
    }
    let last = n - k;
    let mut at: usize = 0;
    loop
        invariant
            n == t@.len(),
            k == p@.len(),
            last == n - k,
            at <= last,
            t@ == text@,
            p@ == pattern@,
            forall|j: int| 0 <= j < at ==> !occurs_at(t@, p@, j),
        decreases last - at,
    {
        if matches_at(t.as_slice(), p.as_slice(), at) {
            return true;
        }
        if at == last {
            return false;
        }
        at += 1;
    }
}

/// The lower-case form of an ASCII capital letter; any other character as
/// it is.
pub open spec fn ascii_lower_char(c: char) -> char {
    if 'A' <= c <= 'Z' {
        (c as u32 + 32) as char
    } else {
        c
    }
}

/// `s` with every ASCII capital letter replaced by its lower-case form.
pub open spec fn ascii_lower(s: Seq<char>) -> Seq<char> {
    Seq::new(s.len(), |i: int| ascii_lower_char(s[i]))
}

/// The lower-case form that Unicode's case mapping gives to a text.
pub uninterp spec fn unicode_lower(s: Seq<char>) -> Seq<char>;

/// What Unicode's case mapping makes of `s`. For a text of ASCII characters
/// alone it is `ascii_lower(s)`; for any other text it is left unstated
/// here.
pub open spec fn lowered(s: Seq<char>) -> Seq<char> {
    if is_ascii_chars(s) {
        ascii_lower(s)
    } else {
        unicode_lower(s)
    }
}

/// The lower-case form of `s`: its ASCII capital letters are lowered first,
/// and Unicode's case mapping does the rest. So the case of an ASCII letter
/// never matters to what comes out.
pub open spec fn lower_case_of(s: Seq<char>) -> Seq<char> {
    lowered(ascii_lower(s))
}

/// Lowering a text of ASCII characters gives a text of ASCII characters, and
/// lowering any text once more changes nothing.
pub proof fn lemma_ascii_lower_settled(s: Seq<char>)
    ensures
        is_ascii_chars(s) ==> is_ascii_chars(ascii_lower(s)),
        ascii_lower(ascii_lower(s)) == ascii_lower(s),
{
    if is_ascii_chars(s) {
        assert forall|i: int| 0 <= i < ascii_lower(s).len() implies '\0' <= #[trigger] ascii_lower(
            s,
        )[i] <= '\u{7f}' by {
            assert('\0' <= s[i] <= '\u{7f}');
        }
    }
}

/// The lower-case form of a text of ASCII characters is the text with its
/// capital letters lowered.
pub proof fn lemma_lower_case_of_ascii(s: Seq<char>)
    requires
        is_ascii_chars(s),
    ensures
        lower_case_of(s) == ascii_lower(s),
{
    lemma_ascii_lower_settled(s);
}

/// Lowers the ASCII capital letters of `text`.
pub fn to_ascii_lower(text: &[char]) -> (r: Vec<char>)
    ensures
        r@ == ascii_lower(text@),
{
    let n = text.len();
    let mut r: Vec<char> = Vec::with_capacity(n);
    let mut i: usize = 0;
    while i < n
        invariant
            n == text@.len(),
            i <= n,
            r@ == ascii_lower(text@).subrange(0, i as int),
        decreases n - i,
    {
        let c = text[i];
        let lower = if 'A' <= c && c <= 'Z' {
            ((c as u8) + 32) as char
        } else {
            c
        };
        assert(lower == ascii_lower_char(c));
        r.push(lower);
        assert(r@ == ascii_lower(text@).subrange(0, i + 1));
        i += 1;
    }
    assert(ascii_lower(text@).subrange(0, n as int) == ascii_lower(text@));
    r
}

/// Calls `str::to_lowercase` of the standard library on the text that the
/// characters `text` make up. Trusted, not proved: the result is the
/// Unicode lower-case form of the text, and for a text of ASCII characters
/// alone that form replaces `A` to `Z` by `a` to `z` and keeps every other
/// character. Together the two say that the result is `lowered(text@)`.
#[verifier::external_body]
pub(crate) fn to_lowercase(text: &[char]) -> (r: String)
    ensures
        r@ == unicode_lower(text@),
        is_ascii_chars(text@) ==> r@ == ascii_lower(text@),
{
    let text: String = text.iter().collect();
    text.to_lowercase()
}

/// The lower-case form of `text`.
pub fn lower_case(text: &str) -> (r: String)
    ensures
        r@ == lower_case_of(text@),
{
    let chars = chars_of(text);
    let folded = to_ascii_lower(chars.as_slice());
    to_lowercase(folded.as_slice())
}

/// Lowering the letters of a text does not change where its white space
/// is: trimming and lowering can be done in either order.
pub proof fn lemma_trimmed_ascii_lower(s: Seq<char>)
    ensures
        trimmed(ascii_lower(s)) == ascii_lower(trimmed(s)),
{
    lemma_trim_start_ascii_lower(s);
    lemma_trim_end_ascii_lower(trim_start(s));
}

proof fn lemma_trim_start_ascii_lower(s: Seq<char>)
    ensures
        trim_start(ascii_lower(s)) == ascii_lower(trim_start(s)),
    decreases s.len(),
{
    if s.len() > 0 && is_white_space(s.first()) {
        assert(ascii_lower(s).drop_first() == ascii_lower(s.drop_first()));
        lemma_trim_start_ascii_lower(s.drop_first());
    }
}

proof fn lemma_trim_end_ascii_lower(s: Seq<char>)
    ensures
        trim_end(ascii_lower(s)) == ascii_lower(trim_end(s)),
    decreases s.len(),
{
    if s.len() > 0 && is_white_space(s.last()) {
        assert(ascii_lower(s).drop_last() == ascii_lower(s.drop_last()));
        lemma_trim_end_ascii_lower(s.drop_last());
    }
}

} // verus!
