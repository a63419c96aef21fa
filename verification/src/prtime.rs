//! Rendering of a millisecond count as seconds with two decimals.

use vstd::prelude::*;
use crate::text::{push_char, push_signed_decimal, push_str, signed_decimal, decimal, digit_char};

verus! {

/// Integer division truncating toward zero, as machine division does.
pub open spec fn trunc_div(t: int, d: int) -> int {
    if t >= 0 { t / d } else { -((-t) / d) }
}

/// Remainder of `trunc_div`; it has the sign of `t`.
pub open spec fn trunc_rem(t: int, d: int) -> int {
    t - d * trunc_div(t, d)
}

/// A value rendered with at least two characters, padded with a leading zero.
pub open spec fn two_digits(v: int) -> Seq<char> {
    if 0 <= v < 10 {
        seq!['0', digit_char(v as nat)]
    } else {
        signed_decimal(v)
    }
}

/// The text of `print_time(t)`.
pub open spec fn time_text(t: int) -> Seq<char> {
    signed_decimal(trunc_div(t, 1000)) + seq!['.'] + two_digits(trunc_div(trunc_rem(t, 1000), 10))
        + seq![' ', 's', 'e', 'c']
}

/// Renders milliseconds as "<seconds>.<hundredths> sec", with the truncating
/// division and remainder of machine integers (negative parts keep their sign).
pub fn print_time(t: i64) -> (r: String)
    ensures
        r@ == time_text(t as int),
{
    let q: i64 = if t >= 0 { t / 1000 } else { 0 - ((0 - (t + 1)) / 1000 + if (0 - (t + 1)) % 1000 == 999 { 1 } else { 0 }) };
    let rem: i64 = t - 1000 * q;
    let h: i64 = if rem >= 0 { rem / 10 } else { 0 - ((0 - rem) / 10) };
    assert(q == trunc_div(t as int, 1000)) by {
        if t < 0 {
            assert(-(t + 1) + 1 == -t);
        }
    }
    let mut s = String::new();
    push_signed_decimal(&mut s, q);
    push_char(&mut s, '.');
    if 0 <= h && h < 10 {
        push_char(&mut s, '0');
        crate::text::push_decimal(&mut s, h as u64);
        assert(decimal(h as nat) =~= seq![digit_char(h as nat)]);
    } else {
        push_signed_decimal(&mut s, h);
    }
    push_char(&mut s, ' ');
    push_char(&mut s, 's');
    push_char(&mut s, 'e');
    push_char(&mut s, 'c');
    assert(s@ =~= time_text(t as int));
    s
}

} // verus!
