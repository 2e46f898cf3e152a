//! The cursor-driven decoder: a [`Unescaper`] owns the remaining input and
//! consumes it strictly from front to back, dispatching each backslash to
//! one of three sub-decoders.

use vstd::prelude::*;
use vstd::string::StrSliceExecFns;
use crate::chars::char_from_scalar;
use crate::chars::chars_to_string;
use crate::chars::hex_digit_value;
use crate::chars::is_oct_digit;
use crate::chars::oct_digit_value;
use crate::chars::oct_val;
use crate::error::Error;
use crate::error::IntErrorKind;
use crate::error::shift_err;
use crate::error::shift_pos;
use crate::model::byte_step;
use crate::model::escape_step;
use crate::model::hex_char_step;
use crate::model::is_simple_escape;
use crate::model::lemma_escape_step_bounds;
use crate::model::lemma_find_close_brace_is;
use crate::model::octal_extra;
use crate::model::octal_step;
use crate::model::octal_take;
use crate::model::oct_seq_val;
use crate::model::parse_hex_u32;
use crate::model::parse_hex_u32_from;
use crate::model::prepend;
use crate::model::simple_escape_char;
use crate::model::spec_unescape;
use crate::model::unescape_from;
use crate::model::unicode_step;

verus! {

/// Unescaper struct which holds the character cache for unescaping.
pub struct Unescaper {
    /// The remaining characters, in reverse order (so that the next
    /// character in reading order can be removed in constant time).
    pub chars: Vec<char>,
}

impl View for Unescaper {
    type V = Seq<char>;

    /// The remaining input, in reading order.
    open spec fn view(&self) -> Seq<char> {
        self.chars@.reverse()
    }
}

impl Unescaper {
    /// Builds a new `Unescaper` over the characters of `s`.
    pub fn new(s: &str) -> (r: Self)
        ensures
            r@ == s@,
    {
        let n = s.unicode_len();
        let mut chars: Vec<char> = Vec::new();
        let mut i: usize = n;
        while i > 0
            invariant
                i <= n,
                n == s@.len(),
                chars@.len() == n - i,
                forall|k: int| 0 <= k < chars@.len() ==> chars@[k] == s@[n - 1 - k],
            decreases i,
        {
            i = i - 1;
            let c = s.get_char(i);
            chars.push(c);
        }
        let r = Unescaper { chars };
        proof {
            assert(r@ =~= s@);
        }
        r
    }

    /// Removes and returns the next character in reading order; an empty
    /// cursor yields `None`, never an error.
    pub fn pop_front(&mut self) -> (r: Option<char>)
        ensures
            old(self)@.len() == 0 ==> r is None && final(self)@ == old(self)@,
            old(self)@.len() > 0 ==> r == Some(old(self)@[0]) && final(self)@ == old(
                self,
            )@.skip(1),
    {
        let r = self.chars.pop();
        proof {
            let v = old(self).chars@;
            if v.len() == 0 {
                assert(old(self)@ =~= Seq::<char>::empty());
                assert(self@ =~= old(self)@);
            } else {
                assert(old(self)@[0] == v[v.len() - 1]);
                assert(self@ =~= old(self)@.skip(1));
            }
        }
        r
    }

    /// Returns the next character in reading order without consuming it.
    pub fn peek_front(&self) -> (r: Option<char>)
        ensures
            self@.len() == 0 ==> r is None,
            self@.len() > 0 ==> r == Some(self@[0]),
    {
        if self.chars.len() > 0 {
            let c = self.chars[self.chars.len() - 1];
            proof {
                assert(self@[0] == self.chars@[self.chars@.len() - 1]);
            }
            Some(c)
        } else {
            proof {
                assert(self@ =~= Seq::<char>::empty());
            }
            None
        }
    }

    /// How many characters remain to be consumed.
    pub fn remaining(&self) -> (n: usize)
        ensures
            n == self@.len(),
    {
        proof {
            assert(self@.len() == self.chars@.len());
        }
        self.chars.len()
    }

    /// Consumes the next character only when it is an octal digit.
    fn pop_if_oct_digit(&mut self) -> (r: Option<char>)
        ensures
            (old(self)@.len() > 0 && is_oct_digit(old(self)@[0])) ==> r == Some(old(self)@[0])
                && final(self)@ == old(self)@.skip(1),
            !(old(self)@.len() > 0 && is_oct_digit(old(self)@[0])) ==> r is None && *final(self)
                == *old(self),
    {
        let next = self.peek_front();
        match next {
            Some(c) => {
                let u = c as u32;
                if 0x30 <= u && u <= 0x37 {
                    let popped = self.pop_front();
                    Some(c)
                } else {
                    None
                }
            },
            None => None,
        }
    }

    /// Unescape the whole remaining input.
    ///
    /// On success the cursor is exhausted; on failure an unspecified
    /// suffix of the input remains.
    #[verifier::rlimit(100)]
    pub fn unescape(&mut self) -> (r: Result<String, Error>)
        requires
            old(self)@.len() + 2 <= usize::MAX,
        ensures
            (r matches Ok(out) ==> spec_unescape(old(self)@) == Ok::<Seq<char>, Error>(out@)
                && final(self)@.len() == 0),
            (r matches Err(e) ==> spec_unescape(old(self)@) == Err::<Seq<char>, Error>(e)),
            (r matches Err(e) ==> exists|k: int|
                0 <= k <= old(self)@.len() && final(self)@ == #[trigger] old(self)@.skip(k)),
    {
        let ghost orig: Seq<char> = self@;
        let total: usize = self.remaining();
        let mut out: Vec<char> = Vec::new();
        let ghost mut idx: int = 0;
        proof {
            assert(orig.skip(0) =~= orig);
            match unescape_from(orig, 0) {
                Ok(rest) => {
                    assert(Seq::<char>::empty() + rest =~= rest);
                },
                Err(_) => {},
            }
        }
        loop
            invariant
                0 <= idx <= orig.len(),
                total == orig.len(),
                total + 2 <= usize::MAX,
                orig == old(self)@,
                self@ == orig.skip(idx),
                unescape_from(orig, 0) == prepend(out@, unescape_from(orig, idx)),
            ensures
                self@.len() == 0,
                idx == orig.len(),
                orig == old(self)@,
                unescape_from(orig, 0) == prepend(out@, unescape_from(orig, idx)),
            decreases orig.len() - idx,
        {
            let c = match self.pop_front() {
                None => { break; },
                Some(c) => c,
            };
            proof {
                assert(orig.skip(idx).skip(1) =~= orig.skip(idx + 1));
            }
            let ghost out0: Seq<char> = out@;
            if c != '\\' {
                out.push(c);
                proof {
                    match unescape_from(orig, idx + 1) {
                        Ok(rest) => {
                            assert(out0 + (seq![c] + rest) =~= out@ + rest);
                        },
                        Err(_) => {},
                    }
                    idx = idx + 1;
                }
            } else {
                let c2 = match self.pop_front() {
                    None => {
                        let pos = total - self.remaining() - 1;
                        proof {
                            assert(pos == idx);
                            assert(self@ == orig.skip(idx + 1));
                        }
                        return Err(Error::IncompleteStr(pos));
                    },
                    Some(x) => x,
                };
                proof {
                    assert(orig.skip(idx + 1).skip(1) =~= orig.skip(idx + 2));
                }
                let ghost rest: Seq<char> = orig.skip(idx + 2);
                let ghost mut m: int = 0;
                let decoded: char;
                let simple: Option<char> = if c2 == 'b' {
                    Some('\u{0008}')
                } else if c2 == 'f' {
                    Some('\u{000c}')
                } else if c2 == 'n' {
                    Some('\n')
                } else if c2 == 'r' {
                    Some('\r')
                } else if c2 == 't' {
                    Some('\t')
                } else if c2 == '\'' || c2 == '"' || c2 == '\\' || c2 == '/' {
                    Some(c2)
                } else {
                    None
                };
                match simple {
                    Some(d) => {
                        proof {
                            assert(is_simple_escape(c2) && d == simple_escape_char(c2));
                            assert(escape_step(orig, idx) == Ok::<(char, int), Error>(
                                (d, idx + 2),
                            ));
                        }
                        decoded = d;
                    },
                    None => {
                        let subres: Result<char, Error> = if c2 == 'u' {
                            proof {
                                m = unicode_step(rest).1;
                            }
                            self.unescape_unicode_internal()
                        } else if c2 == 'x' {
                            proof {
                                m = byte_step(rest).1;
                            }
                            self.unescape_byte_internal()
                        } else {
                            proof {
                                m = octal_step(c2, rest).1;
                            }
                            self.unescape_octal_internal(c2)
                        };
                        proof {
                            assert(!is_simple_escape(c2));
                            assert(0 <= m <= rest.len());
                            assert(rest.skip(m) =~= orig.skip(idx + 2 + m));
                        }
                        match subres {
                            Ok(d) => {
                                proof {
                                    assert(escape_step(orig, idx) == Ok::<(char, int), Error>(
                                        (d, idx + 2 + m),
                                    ));
                                }
                                decoded = d;
                            },
                            Err(e) => {
                                let off = total - self.remaining() - 1;
                                proof {
                                    assert(self@.len() == orig.len() - (idx + 2 + m));
                                    assert(off == idx + 1 + m);
                                    assert(e.spec_pos() + off <= usize::MAX);
                                }
                                let shifted = shift_err(e, off);
                                proof {
                                    assert(escape_step(orig, idx) == Err::<(char, int), Error>(
                                        shift_pos(e, idx + 1 + m),
                                    ));
                                    assert(unescape_from(orig, idx) == Err::<Seq<char>, Error>(
                                        shifted,
                                    ));
                                    assert(self@ == orig.skip(idx + 2 + m));
                                }
                                return Err(shifted);
                            },
                        }
                    },
                }
                out.push(decoded);
                proof {
                    lemma_escape_step_bounds(orig, idx);
                    let j = idx + 2 + m;
                    assert(escape_step(orig, idx) == Ok::<(char, int), Error>((decoded, j)));
                    match unescape_from(orig, j) {
                        Ok(rest2) => {
                            assert(out0 + (seq![decoded] + rest2) =~= out@ + rest2);
                        },
                        Err(_) => {},
                    }
                    idx = j;
                }
            }
        }
        proof {
            assert(unescape_from(orig, idx) == Ok::<Seq<char>, Error>(Seq::empty()));
            assert(out@ + Seq::<char>::empty() =~= out@);
        }
        let s = chars_to_string(&out);
        Ok(s)
    }

    /// Decodes the `\u` forms: `{` followed by digits up to a closing
    /// brace, or exactly four hex digits.
    fn unescape_unicode_internal(&mut self) -> (r: Result<char, Error>)
        ensures
            ({
                let (sr, m) = unicode_step(old(self)@);
                &&& r == sr
                &&& 0 <= m <= old(self)@.len()
                &&& final(self)@ == old(self)@.skip(m)
                &&& (r matches Err(e) ==> e.spec_pos() <= 2)
            }),
    {
        let ghost rest: Seq<char> = self@;
        let c0 = match self.pop_front() {
            None => {
                proof {
                    assert(rest.skip(0) =~= rest);
                }
                return Err(Error::IncompleteStr(0));
            },
            Some(c) => c,
        };
        let mut digits: Vec<char> = Vec::new();
        if c0 == '{' {
            let mut closed = false;
            let ghost mut m: int = 1;
            loop
                invariant_except_break
                    !closed,
                    1 <= m <= rest.len(),
                    rest.len() >= 1 && rest[0] == '{',
                    self@ == rest.skip(m),
                    digits@ == rest.subrange(1, m),
                    forall|t: int| 1 <= t < m ==> rest[t] != '}',
                ensures
                    1 <= m <= rest.len(),
                    self@ == rest.skip(m),
                    !closed ==> m == rest.len() && digits@ == rest.subrange(1, m) && (forall|
                        t: int,
                    | 1 <= t < m ==> rest[t] != '}'),
                    closed ==> m >= 2 && digits@ == rest.subrange(1, m - 1) && rest[m - 1] == '}'
                        && (forall|t: int| 1 <= t < m - 1 ==> rest[t] != '}'),
                decreases rest.len() - m,
            {
                let n = match self.pop_front() {
                    None => { break; },
                    Some(n) => n,
                };
                proof {
                    assert(rest.skip(m).skip(1) =~= rest.skip(m + 1));
                    assert(n == rest[m]);
                    m = m + 1;
                }
                if n == '}' {
                    closed = true;
                    break;
                }
                digits.push(n);
                proof {
                    assert(digits@ =~= rest.subrange(1, m));
                }
            }
            proof {
                if closed {
                    lemma_find_close_brace_is(rest, 1, m - 1);
                    assert(unicode_step(rest) == (hex_char_step(digits@), m));
                } else {
                    lemma_find_close_brace_is(rest, 1, rest.len() as int);
                    assert(rest.subrange(1, rest.len() as int) == digits@);
                    assert(unicode_step(rest) == (hex_char_step(digits@), m));
                }
            }
            hex_buffer_to_char(&digits)
        } else {
            digits.push(c0);
            let c1 = match self.pop_front() {
                None => {
                    proof {
                        assert(rest.len() == 1);
                        assert(self@ == rest.skip(1));
                    }
                    return Err(Error::IncompleteStr(0));
                },
                Some(c) => c,
            };
            digits.push(c1);
            let c2 = match self.pop_front() {
                None => {
                    proof {
                        assert(rest.skip(1).skip(1) =~= rest.skip(2));
                        assert(rest.len() == 2);
                    }
                    return Err(Error::IncompleteStr(1));
                },
                Some(c) => c,
            };
            digits.push(c2);
            let c3 = match self.pop_front() {
                None => {
                    proof {
                        assert(rest.skip(1).skip(1) =~= rest.skip(2));
                        assert(rest.skip(2).skip(1) =~= rest.skip(3));
                        assert(rest.len() == 3);
                    }
                    return Err(Error::IncompleteStr(2));
                },
                Some(c) => c,
            };
            digits.push(c3);
            proof {
                assert(rest.skip(1).skip(1) =~= rest.skip(2));
                assert(rest.skip(2).skip(1) =~= rest.skip(3));
                assert(rest.skip(3).skip(1) =~= rest.skip(4));
                assert(c1 == rest[1] && c2 == rest[2] && c3 == rest[3]);
                assert(digits@ =~= rest.subrange(0, 4));
                assert(unicode_step(rest) == (hex_char_step(digits@), 4int));
            }
            hex_buffer_to_char(&digits)
        }
    }

    /// Decodes the `\x` form: exactly two hex digits, one byte,
    /// reinterpreted as one of the first 256 characters.
    fn unescape_byte_internal(&mut self) -> (r: Result<char, Error>)
        ensures
            ({
                let (sr, m) = byte_step(old(self)@);
                &&& r == sr
                &&& 0 <= m <= old(self)@.len()
                &&& final(self)@ == old(self)@.skip(m)
                &&& (r matches Err(e) ==> e.spec_pos() <= 2)
            }),
    {
        let ghost rest: Seq<char> = self@;
        let c0 = match self.pop_front() {
            None => {
                proof {
                    assert(rest.skip(0) =~= rest);
                }
                return Err(Error::IncompleteStr(0));
            },
            Some(c) => c,
        };
        let c1 = match self.pop_front() {
            None => {
                proof {
                    assert(rest.len() == 1);
                }
                return Err(Error::IncompleteStr(1));
            },
            Some(c) => c,
        };
        proof {
            assert(rest.skip(1).skip(1) =~= rest.skip(2));
            assert(c0 == rest[0] && c1 == rest[1]);
        }
        let h0 = match hex_digit_value(c0) {
            None => {
                return Err(Error::ParseIntError { source: IntErrorKind::InvalidDigit, pos: 0 });
            },
            Some(v) => v,
        };
        let h1 = match hex_digit_value(c1) {
            None => {
                return Err(Error::ParseIntError { source: IntErrorKind::InvalidDigit, pos: 0 });
            },
            Some(v) => v,
        };
        let v: u32 = h0 as u32 * 16 + h1 as u32;
        let decoded = char_from_scalar(v);
        Ok(decoded)
    }

    /// Decodes the octal forms: the already-consumed trigger character
    /// `c`, then up to two more octal digits (one when `c` is `4`-`7`),
    /// greedily. A non-octal `c` is the unrecognized-escape fallback.
    fn unescape_octal_internal(&mut self, c: char) -> (r: Result<char, Error>)
        ensures
            ({
                let (sr, m) = octal_step(c, old(self)@);
                &&& r == sr
                &&& 0 <= m <= old(self)@.len()
                &&& final(self)@ == old(self)@.skip(m)
                &&& (r matches Err(e) ==> e.spec_pos() == 0)
            }),
    {
        let ghost rest: Seq<char> = self@;
        let d0 = match oct_digit_value(c) {
            None => {
                proof {
                    assert(rest.skip(0) =~= rest);
                }
                return Err(Error::InvalidChar { char: c, pos: 0 });
            },
            Some(d) => d,
        };
        let mut val: u32 = d0 as u32;
        let ghost mut k: int = 0;
        proof {
            assert(seq![c].len() == 1 && seq![c].last() == c);
            assert(seq![c].drop_last() =~= Seq::<char>::empty());
            assert(oct_seq_val(Seq::<char>::empty()) == 0);
            assert(oct_seq_val(seq![c]) == oct_val(c));
        }
        let first = self.pop_if_oct_digit();
        match first {
            None => {},
            Some(c1) => {
                let d1 = oct_digit_value(c1).unwrap();
                val = val * 8 + d1 as u32;
                proof {
                    k = 1;
                    let digits = seq![c] + rest.subrange(0, 1);
                    assert(digits.drop_last() =~= seq![c]);
                    assert(digits.last() == rest[0]);
                    assert(val as nat == oct_seq_val(digits));
                }
                if d0 <= 3 {
                    let second = self.pop_if_oct_digit();
                    match second {
                        None => {},
                        Some(c2) => {
                            let d2 = oct_digit_value(c2).unwrap();
                            val = val * 8 + d2 as u32;
                            proof {
                                k = 2;
                                assert(rest.skip(1).skip(1) =~= rest.skip(2));
                                assert(c2 == rest[1]);
                                let digits = seq![c] + rest.subrange(0, 2);
                                assert(digits.drop_last() =~= seq![c] + rest.subrange(0, 1));
                                assert(digits.last() == rest[1]);
                                assert(val as nat == oct_seq_val(digits));
                            }
                        },
                    }
                }
            },
        }
        proof {
            assert(k == octal_take(rest, octal_extra(c)));
            assert(val as nat == oct_seq_val(seq![c] + rest.subrange(0, k)));
            assert(val <= 255);
            assert(self@ == rest.skip(k));
        }
        let decoded = char_from_scalar(val);
        Ok(decoded)
    }
}

/// Converts a captured digit buffer into one character, as
/// [`hex_char_step`] describes.
fn hex_buffer_to_char(digits: &Vec<char>) -> (r: Result<char, Error>)
    ensures
        r == hex_char_step(digits@),
        r matches Err(e) ==> e.spec_pos() == 0,
{
    match parse_hex_u32_exec(digits) {
        Err(kind) => Err(Error::ParseIntError { source: kind, pos: 0 }),
        Ok(v) => {
            match char::from_u32(v) {
                Some(decoded) => {
                    proof {
                        vstd::utf8::char_u32_cast(decoded, v);
                    }
                    Ok(decoded)
                },
                None => {
                    proof {
                        assert(digits@.len() > 0);
                    }
                    Err(Error::InvalidChar { char: digits[digits.len() - 1], pos: 0 })
                },
            }
        },
    }
}

/// Base-16 parse of a digit buffer into 32 bits, as [`parse_hex_u32`]
/// describes.
fn parse_hex_u32_exec(digits: &Vec<char>) -> (r: Result<u32, IntErrorKind>)
    ensures
        r == parse_hex_u32(digits@),
{
    let n = digits.len();
    if n == 0 {
        return Err(IntErrorKind::Empty);
    }
    let mut acc: u64 = 0;
    let mut i: usize = 0;
    while i < n
        invariant
            n == digits@.len(),
            n > 0,
            0 <= i <= n,
            acc <= u32::MAX,
            parse_hex_u32_from(digits@, 0, 0) == parse_hex_u32_from(digits@, i as int, acc as nat),
        decreases n - i,
    {
        let c = digits[i];
        let v = match hex_digit_value(c) {
            None => {
                return Err(IntErrorKind::InvalidDigit);
            },
            Some(v) => v,
        };
        let next: u64 = acc * 16 + v as u64;
        if next > u32::MAX as u64 {
            return Err(IntErrorKind::PosOverflow);
        }
        acc = next;
        i = i + 1;
    }
    Ok(acc as u32)
}

} // verus!
