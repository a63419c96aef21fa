//! Decimal number parsing for command arguments: the strict form of
//! `str::parse::<i32>` and the lenient form of C `atoi`.

use vstd::prelude::*;

verus! {

pub open spec fn is_digit(c: char) -> bool {
    '0' <= c && c <= '9'
}

pub open spec fn digit_value(c: char) -> nat {
    ((c as int) - ('0' as int)) as nat
}

pub open spec fn all_digits(s: Seq<char>) -> bool {
    forall|i: int| 0 <= i < s.len() ==> is_digit(#[trigger] s[i])
}

/// The value of a sequence of decimal digits.
pub open spec fn digits_value(s: Seq<char>) -> nat
    decreases s.len(),
{
    if s.len() == 0 {
        0
    } else {
        digits_value(s.drop_last()) * 10 + digit_value(s.last())
    }
}

/// Whether the text starts with a sign character.
pub open spec fn has_sign(s: Seq<char>) -> bool {
    s.len() > 0 && (s[0] == '-' || s[0] == '+')
}

/// The text after an optional leading sign.
pub open spec fn unsigned_part(s: Seq<char>) -> Seq<char> {
    if has_sign(s) { s.drop_first() } else { s }
}

/// Whether the text starts with a minus sign.
pub open spec fn is_negative(s: Seq<char>) -> bool {
    s.len() > 0 && s[0] == '-'
}

/// What `str::parse::<i32>` gives: an optional sign then one or more digits,
/// whose value fits in `i32`.
pub open spec fn parse_i32_spec(s: Seq<char>) -> Option<i32> {
    let body = unsigned_part(s);
    if body.len() == 0 || !all_digits(body) {
        None
    } else {
        let v: int = if is_negative(s) { -(digits_value(body) as int) } else { digits_value(body) as int };
        if i32::MIN <= v && v <= i32::MAX { Some(v as i32) } else { None }
    }
}

proof fn lemma_digits_value_prefix(s: Seq<char>, k: int)
    requires
        all_digits(s),
        0 <= k <= s.len(),
    ensures
        digits_value(s.take(k)) <= digits_value(s),
    decreases s.len() - k,
{
    if k < s.len() {
        lemma_digits_value_prefix(s, k + 1);
        let t = s.take(k + 1);
        assert(t.drop_last() =~= s.take(k));
    } else {
        assert(s.take(k) =~= s);
    }
}

fn char_digit(c: char) -> (r: u32)
    requires
        is_digit(c),
    ensures
        r == digit_value(c),
        r <= 9,
{
    (c as u32) - ('0' as u32)
}

/// Parses an `i32` the way `str::parse::<i32>` does.
pub fn parse_i32_chars(s: &Vec<char>) -> (r: Option<i32>)
    ensures
        r == parse_i32_spec(s@),
{
    let n = s.len();
    let mut start: usize = 0;
    let mut negative = false;
    if n > 0 && (s[0] == '-' || s[0] == '+') {
        negative = s[0] == '-';
        start = 1;
    }
    let ghost body = unsigned_part(s@);
    assert(body =~= s@.skip(start as int));
    if start == n {
        return None;
    }
    let mut value: u64 = 0;
    let mut big = false;
    let mut i = start;
    while i < n
        invariant
            start <= i <= n,
            n == s@.len(),
            body == unsigned_part(s@),
            body =~= s@.skip(start as int),
            forall|j: int| start <= j < i ==> is_digit(s@[j]),
            !big ==> value == digits_value(body.take(i - start)),
            !big ==> value <= 0x8000_0000,
            big ==> digits_value(body.take(i - start)) > 0x8000_0000,
        decreases n - i,
    {
        let c = s[i];
        if !('0' <= c && c <= '9') {
            assert(!all_digits(body)) by {
                assert(body[i - start] == c);
            }
            return None;
        }
        let d = char_digit(c);
        proof {
            let t = body.take(i - start + 1);
            assert(t.drop_last() =~= body.take(i - start));
            assert(t.last() == c);
        }
        if !big {
            let nv = value * 10 + d as u64;
            if nv > 0x8000_0000 {
                big = true;
            } else {
                value = nv;
            }
        } else {
            proof {
                assert(digits_value(body.take(i - start + 1)) >= digits_value(body.take(i - start)) * 10);
            }
        }
        i = i + 1;
    }
    proof {
        assert(body.take(n - start) =~= body);
        assert(all_digits(body)) by {
            assert forall|j: int| 0 <= j < body.len() implies is_digit(#[trigger] body[j]) by {
                assert(body[j] == s@[j + start]);
            }
        }
    }
    if big {
        return None;
    }
    if negative {
        if value <= 0x8000_0000 {
            let r: i64 = 0 - (value as i64);
            Some(r as i32)
        } else {
            None
        }
    } else {
        if value <= 0x7fff_ffff {
            Some(value as i32)
        } else {
            None
        }
    }
}

/// Whether a character has the Unicode `White_Space` property, as
/// `char::is_whitespace` documents it; such characters are skipped before
/// the number.
pub open spec fn is_space(c: char) -> bool {
    ('\u{9}' <= c && c <= '\u{d}') || c == ' ' || c == '\u{85}' || c == '\u{a0}' || c == '\u{1680}'
        || ('\u{2000}' <= c && c <= '\u{200a}') || c == '\u{2028}' || c == '\u{2029}' || c == '\u{202f}'
        || c == '\u{205f}' || c == '\u{3000}'
}

/// Number of leading white-space characters.
pub open spec fn leading_spaces(s: Seq<char>) -> nat
    decreases s.len(),
{
    if s.len() > 0 && is_space(s[0]) { 1 + leading_spaces(s.drop_first()) } else { 0 }
}

/// Number of leading digits.
pub open spec fn leading_digits(s: Seq<char>) -> nat
    decreases s.len(),
{
    if s.len() > 0 && is_digit(s[0]) { 1 + leading_digits(s.drop_first()) } else { 0 }
}

/// The magnitude, saturated at `i32::MAX`.
pub open spec fn saturate_i32(v: nat) -> i32 {
    if v > i32::MAX { i32::MAX } else { v as i32 }
}

/// What lenient `atoi` gives: skip leading white space, an optional sign, then
/// the longest run of digits; the magnitude saturates at `i32::MAX` before the
/// sign is applied; no digits give 0.
pub open spec fn atoi_spec(s: Seq<char>) -> i32 {
    let t = s.skip(leading_spaces(s) as int);
    let body = unsigned_part(t);
    let digits = body.take(leading_digits(body) as int);
    if digits.len() == 0 {
        0
    } else if is_negative(t) {
        (-(saturate_i32(digits_value(digits)) as int)) as i32
    } else {
        saturate_i32(digits_value(digits))
    }
}

pub(crate) fn is_space_char(c: char) -> (r: bool)
    ensures
        r == is_space(c),
{
    ('\u{9}' <= c && c <= '\u{d}') || c == ' ' || c == '\u{85}' || c == '\u{a0}' || c == '\u{1680}'
        || ('\u{2000}' <= c && c <= '\u{200a}') || c == '\u{2028}' || c == '\u{2029}' || c == '\u{202f}'
        || c == '\u{205f}' || c == '\u{3000}'
}

pub(crate) proof fn lemma_leading_spaces(s: Seq<char>, k: int)
    requires
        0 <= k <= s.len(),
        forall|j: int| 0 <= j < k ==> is_space(s[j]),
        k == s.len() || !is_space(s[k]),
    ensures
        leading_spaces(s) == k,
    decreases k,
{
    if k > 0 {
        let t = s.drop_first();
        assert forall|j: int| 0 <= j < k - 1 implies is_space(t[j]) by {
            assert(t[j] == s[j + 1]);
        }
        if k - 1 < t.len() {
            assert(t[k - 1] == s[k]);
        }
        lemma_leading_spaces(t, k - 1);
    } else if s.len() > 0 {
        assert(!is_space(s[0]));
    }
}

pub(crate) proof fn lemma_leading_digits(s: Seq<char>, k: int)
    requires
        0 <= k <= s.len(),
        forall|j: int| 0 <= j < k ==> is_digit(s[j]),
        k == s.len() || !is_digit(s[k]),
    ensures
        leading_digits(s) == k,
    decreases k,
{
    if k > 0 {
        let t = s.drop_first();
        assert forall|j: int| 0 <= j < k - 1 implies is_digit(t[j]) by {
            assert(t[j] == s[j + 1]);
        }
        if k - 1 < t.len() {
            assert(t[k - 1] == s[k]);
        }
        lemma_leading_digits(t, k - 1);
    } else if s.len() > 0 {
        assert(!is_digit(s[0]));
    }
}

/// The lenient `atoi` reading of a text.
pub fn c_atoi(s: &Vec<char>) -> (r: i32)
    ensures
        r == atoi_spec(s@),
{
    let n = s.len();
    let mut i: usize = 0;
    while i < n && is_space_char(s[i])
        invariant
            i <= n,
            n == s@.len(),
            forall|j: int| 0 <= j < i ==> is_space(s@[j]),
        decreases n - i,
    {
        i = i + 1;
    }
    proof {
        lemma_leading_spaces(s@, i as int);
    }
    let ghost t = s@.skip(i as int);
    let mut negative = false;
    if i < n && (s[i] == '-' || s[i] == '+') {
        negative = s[i] == '-';
        i = i + 1;
    }
    let ghost body = unsigned_part(t);
    let start = i;
    assert(body =~= s@.skip(start as int));
    let mut value: u64 = 0;
    let mut big = false;
    while i < n && '0' <= s[i] && s[i] <= '9'
        invariant
            start <= i <= n,
            n == s@.len(),
            body =~= s@.skip(start as int),
            forall|j: int| start <= j < i ==> is_digit(s@[j]),
            !big ==> value == digits_value(body.take(i - start)),
            !big ==> value <= 0x8000_0000,
            big ==> digits_value(body.take(i - start)) > 0x8000_0000,
        decreases n - i,
    {
        let d = char_digit(s[i]);
        proof {
            let tt = body.take(i - start + 1);
            assert(tt.drop_last() =~= body.take(i - start));
            assert(tt.last() == s@[i as int]);
        }
        if !big {
            let nv = value * 10 + d as u64;
            if nv > 0x8000_0000 {
                big = true;
            } else {
                value = nv;
            }
        } else {
            proof {
                assert(digits_value(body.take(i - start + 1)) >= digits_value(body.take(i - start)) * 10);
            }
        }
        i = i + 1;
    }
    proof {
        lemma_leading_digits(body, i - start);
        assert forall|j: int| 0 <= j < i - start implies is_digit(body[j]) by {
            assert(body[j] == s@[j + start]);
        }
        if i < n {
            assert(body[i - start] == s@[i as int]);
        }
        lemma_leading_digits(body, i - start);
    }
    if i == start {
        return 0;
    }
    let magnitude: i32 = if big || value > 0x7fff_ffff { i32::MAX } else { value as i32 };
    if negative { 0 - magnitude } else { magnitude }
}

} // verus!
