//! Uppercase hexadecimal rendering of escape codes.
use vstd::prelude::*;
use crate::text::push_char;

verus! {

/// The uppercase hexadecimal digit for a value below sixteen.
pub open spec fn hex_digit(d: nat) -> char {
    if d < 10 {
        (48 + d) as u8 as char
    } else {
        (55 + d) as u8 as char
    }
}

/// The uppercase hexadecimal rendering of `n`, most significant digit first,
/// without leading zeros (zero itself is the single digit `0`).
pub open spec fn hex_upper(n: nat) -> Seq<char>
    decreases n,
{
    if n < 16 {
        seq![hex_digit(n)]
    } else {
        hex_upper(n / 16).push(hex_digit(n % 16))
    }
}

/// The escape code for the value `n`: a percent sign followed by `hex_upper(n)`.
pub open spec fn escape_code(n: nat) -> Seq<char> {
    seq!['%'] + hex_upper(n)
}

fn digit_char(d: u8) -> (c: char)
    requires
        d < 16,
    ensures
        c == hex_digit(d as nat),
{
    if d < 10 {
        (d + 48) as char
    } else {
        (d + 55) as char
    }
}

/// Appends the uppercase hexadecimal rendering of `n` to `out`.
pub fn push_hex(out: &mut String, n: usize)
    ensures
        final(out)@ == old(out)@ + hex_upper(n as nat),
    decreases n,
{
    if n >= 16 {
        push_hex(out, n / 16);
    }
    push_char(out, digit_char((n % 16) as u8));
    assert(out@ =~= old(out)@ + hex_upper(n as nat));
}

/// Renders the escape code of `n`, e.g. `%20` for 32 and `%A` for 10.
pub fn format_escape(n: usize) -> (r: String)
    ensures
        r@ == escape_code(n as nat),
{
    let mut r = String::new();
    push_char(&mut r, '%');
    push_hex(&mut r, n);
    assert(r@ =~= escape_code(n as nat));
    r
}

} // verus!
