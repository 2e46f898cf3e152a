//! Decode backslash-escape sequences (as found in JSON, C-like and
//! shell-style string literals) into the literal text they denote,
//! reporting on failure the exact character position at which decoding
//! broke down.

use vstd::prelude::*;

pub mod chars;
mod error;
pub mod laws;
pub mod model;
mod unescaper;

pub use chars::is_hex_digit;
pub use chars::is_oct_digit;
pub use error::Error;
pub use error::IntErrorKind;
pub use model::spec_unescape;
pub use unescaper::Unescaper;

verus! {

/// Unescape the given `str`.
pub fn unescape(s: &str) -> (r: Result<String, Error>)
    requires
        s@.len() + 2 <= usize::MAX,
    ensures
        (r matches Ok(out) ==> spec_unescape(s@) == Ok::<Seq<char>, Error>(out@)),
        (r matches Err(e) ==> spec_unescape(s@) == Err::<Seq<char>, Error>(e)),
{
    let mut u = Unescaper::new(s);
    u.unescape()
}

} // verus!
