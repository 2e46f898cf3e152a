//! Character-level helpers: digit classes and their numeric values,
//! decimal rendering of positions, and the few conversions that lean on
//! the standard library.

use vstd::prelude::*;

verus! {

/// True for the decimal digits `0`-`9` and the letters `a`-`f` and `A`-`F`.
pub open spec fn is_hex_digit(c: char) -> bool {
    ('0' as u32 <= c as u32 && c as u32 <= '9' as u32)
    || ('a' as u32 <= c as u32 && c as u32 <= 'f' as u32)
    || ('A' as u32 <= c as u32 && c as u32 <= 'F' as u32)
}

/// Numeric value of a hexadecimal digit.
pub open spec fn hex_val(c: char) -> nat
    recommends
        is_hex_digit(c),
{
    if '0' as u32 <= c as u32 && c as u32 <= '9' as u32 {
        (c as u32 - '0' as u32) as nat
    } else if 'a' as u32 <= c as u32 && c as u32 <= 'f' as u32 {
        (c as u32 - 'a' as u32 + 10) as nat
    } else {
        (c as u32 - 'A' as u32 + 10) as nat
    }
}

/// True for the digits `0`-`7`.
pub open spec fn is_oct_digit(c: char) -> bool {
    '0' as u32 <= c as u32 && c as u32 <= '7' as u32
}

/// Numeric value of an octal digit.
pub open spec fn oct_val(c: char) -> nat
    recommends
        is_oct_digit(c),
{
    (c as u32 - '0' as u32) as nat
}

/// Hexadecimal value of `c`, or `None` when `c` is no hex digit.
pub fn hex_digit_value(c: char) -> (r: Option<u8>)
    ensures
        r matches Some(v) ==> is_hex_digit(c) && v as nat == hex_val(c) && v < 16,
        r is None ==> !is_hex_digit(c),
{
    let u = c as u32;
    if 0x30 <= u && u <= 0x39 {
        Some((u - 0x30) as u8)
    } else if 0x61 <= u && u <= 0x66 {
        Some((u - 0x61 + 10) as u8)
    } else if 0x41 <= u && u <= 0x46 {
        Some((u - 0x41 + 10) as u8)
    } else {
        None
    }
}

/// Octal value of `c`, or `None` when `c` is no octal digit.
pub fn oct_digit_value(c: char) -> (r: Option<u8>)
    ensures
        r matches Some(v) ==> is_oct_digit(c) && v as nat == oct_val(c) && v < 8,
        r is None ==> !is_oct_digit(c),
{
    let u = c as u32;
    if 0x30 <= u && u <= 0x37 {
        Some((u - 0x30) as u8)
    } else {
        None
    }
}

/// True when `v` is a Unicode scalar value: a code point outside the
/// surrogate range.
pub open spec fn is_scalar_value(v: u32) -> bool {
    v < 0xD800 || (0xDFFF < v && v <= 0x10FFFF)
}

/// Relies on `char::from_u32`: it returns the character with code `v`
/// exactly when `v` is a Unicode scalar value, and `None` otherwise.
pub assume_specification[ char::from_u32 ](v: u32) -> (r: Option<char>)
    ensures
        r is Some <==> is_scalar_value(v),
        r matches Some(c) ==> c as u32 == v,
;

/// The character with code `v`, for a known scalar value.
pub fn char_from_scalar(v: u32) -> (c: char)
    requires
        is_scalar_value(v),
    ensures
        c as u32 == v,
        c == (v as char),
{
    let c = char::from_u32(v).unwrap();
    proof {
        vstd::utf8::char_u32_cast(c, v);
    }
    c
}

/// The character that prints a single decimal digit.
pub open spec fn dec_digit_char(d: nat) -> char
    recommends
        d < 10,
{
    (('0' as u32 + d) as u32) as char
}

/// The decimal digit characters of `n`, most significant first.
pub open spec fn dec_digits(n: nat) -> Seq<char>
    decreases n,
{
    if n < 10 {
        seq![dec_digit_char(n)]
    } else {
        dec_digits(n / 10).push(dec_digit_char(n % 10))
    }
}

/// Appends the decimal digits of `n` to `out`.
pub fn push_dec_digits(out: &mut Vec<char>, n: usize)
    ensures
        final(out)@ == old(out)@ + dec_digits(n as nat),
    decreases n,
{
    if n >= 10 {
        push_dec_digits(out, n / 10);
    }
    let c = char_from_scalar((n % 10) as u32 + 0x30);
    proof {
        assert(c == dec_digit_char((n as nat) % 10));
    }
    out.push(c);
    proof {
        if n < 10 {
            assert(old(out)@ + dec_digits(n as nat) =~= old(out)@.push(c));
        } else {
            assert(old(out)@ + dec_digits(n as nat)
                =~= (old(out)@ + dec_digits((n as nat) / 10)).push(c));
        }
    }
}

/// Relies on collecting an iterator of `char`s into a `String`: the result
/// holds exactly the iterated characters, in order.
#[verifier::external_body]
pub(crate) fn chars_to_string(v: &Vec<char>) -> (s: String)
    ensures
        s@ == v@,
{
    v.iter().collect()
}

/// What the standard `Debug` formatting prints for a character; it depends
/// on the character alone.
pub uninterp spec fn char_debug_of(c: char) -> Seq<char>;

/// Relies on the standard `Debug` impl for `char` (a quoted, escaped
/// rendering of the character).
#[verifier::external_body]
pub(crate) fn char_debug(c: char) -> (s: String)
    ensures
        s@ == char_debug_of(c),
{
    format!("{:?}", c)
}

} // verus!
