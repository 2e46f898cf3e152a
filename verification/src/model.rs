//! The mathematical model of decoding: what each escape form denotes, how
//! many characters it consumes, and which error — with which absolute
//! position — ends a decode. Every executable function of the crate is
//! specified against [`spec_unescape`].

use vstd::prelude::*;
use crate::chars::hex_val;
use crate::chars::is_hex_digit;
use crate::chars::is_oct_digit;
use crate::chars::is_scalar_value;
use crate::chars::oct_val;
use crate::error::Error;
use crate::error::IntErrorKind;
use crate::error::shift_pos;

verus! {

/// Digits of a base-16 number, read left to right from index `i` with the
/// value `acc` already accumulated, exactly as the standard numeric
/// conversion reads them: the first non-digit stops it, and so does the
/// first step whose value no longer fits in 32 bits.
pub open spec fn parse_hex_u32_from(s: Seq<char>, i: int, acc: nat) -> Result<u32, IntErrorKind>
    recommends
        acc <= u32::MAX,
    decreases s.len() - i,
{
    if i < 0 || i >= s.len() {
        Ok(acc as u32)
    } else if !is_hex_digit(s[i]) {
        Err(IntErrorKind::InvalidDigit)
    } else if acc * 16 + hex_val(s[i]) > u32::MAX {
        Err(IntErrorKind::PosOverflow)
    } else {
        parse_hex_u32_from(s, i + 1, acc * 16 + hex_val(s[i]))
    }
}

/// The 32-bit value denoted by a buffer of hexadecimal digits.
pub open spec fn parse_hex_u32(s: Seq<char>) -> Result<u32, IntErrorKind> {
    if s.len() == 0 {
        Err(IntErrorKind::Empty)
    } else {
        parse_hex_u32_from(s, 0, 0)
    }
}

/// The value of a buffer of octal digits (which, as this decoder builds
/// them, never exceeds one byte).
pub open spec fn oct_seq_val(s: Seq<char>) -> nat
    decreases s.len(),
{
    if s.len() == 0 {
        0
    } else {
        oct_seq_val(s.drop_last()) * 8 + oct_val(s.last())
    }
}

/// Index of the first closing brace at or after `i`, or `s.len()` when
/// there is none.
pub open spec fn find_close_brace(s: Seq<char>, i: int) -> int
    decreases s.len() - i,
{
    if i < 0 || i >= s.len() {
        s.len() as int
    } else if s[i] == '}' {
        i
    } else {
        find_close_brace(s, i + 1)
    }
}

/// Converts a captured digit buffer into one character: base-16 parse,
/// then validation as a Unicode scalar value. Error positions are 0,
/// relative to this sub-decode.
pub open spec fn hex_char_step(digits: Seq<char>) -> Result<char, Error> {
    match parse_hex_u32(digits) {
        Err(kind) => Err(Error::ParseIntError { source: kind, pos: 0 }),
        Ok(v) => if is_scalar_value(v) {
            Ok(v as char)
        } else {
            Err(Error::InvalidChar { char: digits.last(), pos: 0 })
        },
    }
}

/// The unicode sub-decode, on the cursor content `rest` just after the
/// `u`. Yields the decoded character (or an error with a position relative
/// to this sub-decode) and the number of characters consumed from `rest`.
pub open spec fn unicode_step(rest: Seq<char>) -> (Result<char, Error>, int) {
    if rest.len() == 0 {
        (Err(Error::IncompleteStr(0)), 0)
    } else if rest[0] == '{' {
        let close = find_close_brace(rest, 1);
        if close < rest.len() {
            (hex_char_step(rest.subrange(1, close)), close + 1)
        } else {
            (hex_char_step(rest.subrange(1, rest.len() as int)), rest.len() as int)
        }
    } else if rest.len() >= 4 {
        (hex_char_step(rest.subrange(0, 4)), 4)
    } else {
        (Err(Error::IncompleteStr((rest.len() - 1) as usize)), rest.len() as int)
    }
}

/// The byte sub-decode, on the cursor content `rest` just after the `x`:
/// exactly two hex digits, reinterpreted as one of the first 256
/// characters.
pub open spec fn byte_step(rest: Seq<char>) -> (Result<char, Error>, int) {
    if rest.len() >= 2 {
        if is_hex_digit(rest[0]) && is_hex_digit(rest[1]) {
            (Ok((((hex_val(rest[0]) * 16 + hex_val(rest[1])) as u32) as char)), 2)
        } else {
            (Err(Error::ParseIntError { source: IntErrorKind::InvalidDigit, pos: 0 }), 2)
        }
    } else {
        (Err(Error::IncompleteStr(rest.len() as usize)), rest.len() as int)
    }
}

/// How many octal digits may follow the first one: two when it is `0`-`3`
/// (three digits reach at most octal 377, one byte), one when it is
/// `4`-`7`.
pub open spec fn octal_extra(c: char) -> int
    recommends
        is_oct_digit(c),
{
    if oct_val(c) <= 3 {
        2
    } else {
        1
    }
}

/// How many octal digits the greedy-but-bounded scan takes from `rest`,
/// given the cap `max`.
pub open spec fn octal_take(rest: Seq<char>, max: int) -> int {
    if max >= 1 && rest.len() >= 1 && is_oct_digit(rest[0]) {
        if max >= 2 && rest.len() >= 2 && is_oct_digit(rest[1]) {
            2
        } else {
            1
        }
    } else {
        0
    }
}

/// The octal sub-decode: `c` is the already-consumed character that
/// triggered it, `rest` the cursor content after `c`. A non-octal `c` is
/// the fallback path for unrecognized escape letters.
pub open spec fn octal_step(c: char, rest: Seq<char>) -> (Result<char, Error>, int) {
    if !is_oct_digit(c) {
        (Err(Error::InvalidChar { char: c, pos: 0 }), 0)
    } else {
        let k = octal_take(rest, octal_extra(c));
        (Ok(((oct_seq_val(seq![c] + rest.subrange(0, k)) as u32) as char)), k)
    }
}

/// True for the escape letters with a fixed replacement character.
pub open spec fn is_simple_escape(c: char) -> bool {
    c == 'b' || c == 'f' || c == 'n' || c == 'r' || c == 't'
    || c == '\'' || c == '"' || c == '\\' || c == '/'
}

/// The replacement character of a literal-mapping escape.
pub open spec fn simple_escape_char(c: char) -> char
    recommends
        is_simple_escape(c),
{
    if c == 'b' {
        '\u{0008}'
    } else if c == 'f' {
        '\u{000c}'
    } else if c == 'n' {
        '\n'
    } else if c == 'r' {
        '\r'
    } else if c == 't' {
        '\t'
    } else {
        c
    }
}

/// One whole escape whose backslash stands at `p`: the decoded character
/// and the index just after the escape, or an error carrying an absolute
/// position. A sub-decoder's relative position is increased by `p + 1`
/// plus the number of characters the sub-decode consumed.
pub open spec fn escape_step(s: Seq<char>, p: int) -> Result<(char, int), Error>
    recommends
        0 <= p < s.len(),
        s[p] == '\\',
{
    if p + 1 >= s.len() {
        Err(Error::IncompleteStr(p as usize))
    } else {
        let c = s[p + 1];
        if is_simple_escape(c) {
            Ok((simple_escape_char(c), p + 2))
        } else {
            let (r, m) = if c == 'u' {
                unicode_step(s.skip(p + 2))
            } else if c == 'x' {
                byte_step(s.skip(p + 2))
            } else {
                octal_step(c, s.skip(p + 2))
            };
            match r {
                Ok(decoded) => Ok((decoded, p + 2 + m)),
                Err(e) => Err(shift_pos(e, p + 1 + m)),
            }
        }
    }
}

/// `j` forced into `[i + 1, s.len()]`. [`lemma_escape_step_bounds`] shows
/// that the index after an escape already lies in that range, so the clamp
/// never moves it; it only makes termination of [`unescape_from`]
/// self-evident.
pub open spec fn clamp_next(s: Seq<char>, i: int, j: int) -> int {
    if j < i + 1 {
        i + 1
    } else if j > s.len() {
        s.len() as int
    } else {
        j
    }
}

/// The decoded form of the input from index `i` on: ordinary characters
/// pass through unchanged, and each backslash starts one escape.
pub open spec fn unescape_from(s: Seq<char>, i: int) -> Result<Seq<char>, Error>
    decreases s.len() - i,
{
    if i < 0 || i >= s.len() {
        Ok(Seq::empty())
    } else if s[i] != '\\' {
        match unescape_from(s, i + 1) {
            Ok(rest) => Ok(seq![s[i]] + rest),
            Err(e) => Err(e),
        }
    } else {
        match escape_step(s, i) {
            Ok((decoded, j)) => match unescape_from(s, clamp_next(s, i, j)) {
                Ok(rest) => Ok(seq![decoded] + rest),
                Err(e) => Err(e),
            },
            Err(e) => Err(e),
        }
    }
}

/// The decoded form of the whole input, or the first error.
pub open spec fn spec_unescape(s: Seq<char>) -> Result<Seq<char>, Error> {
    unescape_from(s, 0)
}

/// Decoded output already produced, prepended to the outcome of the rest
/// of the decode.
pub open spec fn prepend(out: Seq<char>, r: Result<Seq<char>, Error>) -> Result<Seq<char>, Error> {
    match r {
        Ok(rest) => Ok(out + rest),
        Err(e) => Err(e),
    }
}

/// `find_close_brace` stays within `[i, s.len()]`.
pub proof fn lemma_find_close_brace_bounds(s: Seq<char>, i: int)
    requires
        0 <= i <= s.len(),
    ensures
        i <= find_close_brace(s, i) <= s.len(),
    decreases s.len() - i,
{
    if i < s.len() && s[i] != '}' {
        lemma_find_close_brace_bounds(s, i + 1);
    }
}

/// `find_close_brace` names the first closing brace: a scan that saw none
/// before `j`, and a brace at `j` (or the end of the input), pins it.
pub proof fn lemma_find_close_brace_is(s: Seq<char>, i: int, j: int)
    requires
        0 <= i <= j <= s.len(),
        forall|t: int| i <= t < j ==> s[t] != '}',
        j < s.len() ==> s[j] == '}',
    ensures
        find_close_brace(s, i) == j,
    decreases j - i,
{
    if i < j {
        lemma_find_close_brace_is(s, i + 1, j);
    }
}

/// A successful escape ends within the input, past its own backslash.
pub proof fn lemma_escape_step_bounds(s: Seq<char>, p: int)
    requires
        0 <= p < s.len(),
        s[p] == '\\',
    ensures
        escape_step(s, p) matches Ok(pair) ==> p + 2 <= pair.1 <= s.len(),
        escape_step(s, p) matches Ok(pair) ==> clamp_next(s, p, pair.1) == pair.1,
{
    if p + 1 < s.len() {
        let c = s[p + 1];
        let rest = s.skip(p + 2);
        assert(rest.len() == s.len() - p - 2);
        if !is_simple_escape(c) && c == 'u' {
            if rest.len() > 0 && rest[0] == '{' {
                lemma_find_close_brace_bounds(rest, 1);
            }
        }
    }
}

} // verus!
