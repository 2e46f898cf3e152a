//! General laws of the decoder, each proved against the model in
//! [`crate::model`]: identity on escape-free input, agreement of the two
//! unicode forms, greedy-but-bounded octal consumption, preservation of
//! trailing text, and the round trip through the literal-mapping table.

use vstd::prelude::*;
use crate::chars::hex_val;
use crate::chars::is_hex_digit;
use crate::chars::is_oct_digit;
use crate::chars::is_scalar_value;
use crate::chars::oct_val;
use crate::error::Error;
use crate::error::IntErrorKind;
use crate::model::byte_step;
use crate::model::escape_step;
use crate::model::hex_char_step;
use crate::model::is_simple_escape;
use crate::model::lemma_escape_step_bounds;
use crate::model::lemma_find_close_brace_is;
use crate::model::octal_extra;
use crate::model::octal_take;
use crate::model::oct_seq_val;
use crate::model::parse_hex_u32;
use crate::model::parse_hex_u32_from;
use crate::model::simple_escape_char;
use crate::model::spec_unescape;
use crate::model::unescape_from;
use crate::model::unicode_step;

verus! {

/// From any index on, an input without backslashes decodes to itself.
proof fn lemma_no_backslash_from(s: Seq<char>, i: int)
    requires
        0 <= i <= s.len(),
        forall|t: int| i <= t < s.len() ==> s[t] != '\\',
    ensures
        unescape_from(s, i) == Ok::<Seq<char>, Error>(s.skip(i)),
    decreases s.len() - i,
{
    if i >= s.len() {
        assert(s.skip(i) =~= Seq::<char>::empty());
    } else {
        lemma_no_backslash_from(s, i + 1);
        assert(seq![s[i]] + s.skip(i + 1) =~= s.skip(i));
    }
}

/// Decoding is the identity on inputs that hold no backslash.
pub proof fn lemma_no_backslash_identity(s: Seq<char>)
    requires
        forall|i: int| 0 <= i < s.len() ==> s[i] != '\\',
    ensures
        spec_unescape(s) == Ok::<Seq<char>, Error>(s),
{
    lemma_no_backslash_from(s, 0);
    assert(s.skip(0) =~= s);
}

/// Decoding an input without a backslash a second time yields what the
/// first decode yielded.
pub proof fn lemma_passthrough_idempotent(s: Seq<char>)
    requires
        forall|i: int| 0 <= i < s.len() ==> s[i] != '\\',
    ensures
        spec_unescape(s) == Ok::<Seq<char>, Error>(s),
        spec_unescape(spec_unescape(s)->Ok_0) == spec_unescape(s),
{
    lemma_no_backslash_identity(s);
}

/// Each literal-mapping escape decodes to its fixed replacement character.
pub proof fn lemma_simple_escape(c: char)
    requires
        is_simple_escape(c),
    ensures
        spec_unescape(seq!['\\', c]) == Ok::<Seq<char>, Error>(seq![simple_escape_char(c)]),
{
    let s = seq!['\\', c];
    assert(s.len() == 2 && s[0] == '\\' && s[1] == c);
    assert(escape_step(s, 0) == Ok::<(char, int), Error>((simple_escape_char(c), 2)));
    assert(unescape_from(s, 2) == Ok::<Seq<char>, Error>(Seq::empty()));
    assert(seq![simple_escape_char(c)] + Seq::<char>::empty() =~= seq![simple_escape_char(c)]);
}

/// True for the characters that the literal-mapping table can express.
pub open spec fn has_escape_form(c: char) -> bool {
    c == '\u{0008}' || c == '\u{000c}' || c == '\n' || c == '\r' || c == '\t'
    || c == '\'' || c == '"' || c == '\\' || c == '/'
}

/// The escape letter whose literal mapping produces `c`.
pub open spec fn escape_letter(c: char) -> char
    recommends
        has_escape_form(c),
{
    if c == '\u{0008}' {
        'b'
    } else if c == '\u{000c}' {
        'f'
    } else if c == '\n' {
        'n'
    } else if c == '\r' {
        'r'
    } else if c == '\t' {
        't'
    } else {
        c
    }
}

/// The canonical escape form of `c`.
pub open spec fn canonical_escape(c: char) -> Seq<char>
    recommends
        has_escape_form(c),
{
    seq!['\\', escape_letter(c)]
}

/// Round trip: decoding the canonical escape form of a character with one
/// reproduces exactly that character.
pub proof fn lemma_round_trip(c: char)
    requires
        has_escape_form(c),
    ensures
        spec_unescape(canonical_escape(c)) == Ok::<Seq<char>, Error>(seq![c]),
{
    lemma_simple_escape(escape_letter(c));
    assert(simple_escape_char(escape_letter(c)) == c);
}

/// A buffer that parses successfully holds hex digits only.
proof fn lemma_parse_ok_all_hex(s: Seq<char>, i: int, acc: nat)
    requires
        0 <= i <= s.len(),
        parse_hex_u32_from(s, i, acc) is Ok,
    ensures
        forall|t: int| i <= t < s.len() ==> is_hex_digit(s[t]),
    decreases s.len() - i,
{
    if i < s.len() {
        lemma_parse_ok_all_hex(s, i + 1, acc * 16 + hex_val(s[i]));
    }
}

/// The braced and the fixed unicode forms agree wherever both denote the
/// same Unicode scalar value, and both decode to exactly that character.
pub proof fn lemma_unicode_forms_agree(d4: Seq<char>, db: Seq<char>, v: u32)
    requires
        d4.len() == 4,
        forall|i: int| 0 <= i < db.len() ==> db[i] != '}',
        parse_hex_u32(d4) == Ok::<u32, IntErrorKind>(v),
        parse_hex_u32(db) == Ok::<u32, IntErrorKind>(v),
        is_scalar_value(v),
    ensures
        spec_unescape(seq!['\\', 'u'] + d4) == Ok::<Seq<char>, Error>(seq![(v as char)]),
        spec_unescape(seq!['\\', 'u', '{'] + db + seq!['}']) == Ok::<Seq<char>, Error>(
            seq![(v as char)],
        ),
{
    let one = seq![(v as char)];
    assert(one + Seq::<char>::empty() =~= one);

    // the fixed form
    let sf = seq!['\\', 'u'] + d4;
    assert(sf.len() == 6 && sf[0] == '\\' && sf[1] == 'u');
    let restf = sf.skip(2);
    assert(restf =~= d4);
    lemma_parse_ok_all_hex(d4, 0, 0);
    assert(!is_hex_digit('{')) by {
        assert('{' as u32 == 123);
    }
    assert(restf[0] != '{');
    assert(restf.subrange(0, 4) =~= d4);
    assert(hex_char_step(d4) == Ok::<char, Error>((v as char)));
    assert(unicode_step(restf) == (Ok::<char, Error>((v as char)), 4int));
    assert(escape_step(sf, 0) == Ok::<(char, int), Error>(((v as char), 6int)));
    assert(unescape_from(sf, 6) == Ok::<Seq<char>, Error>(Seq::empty()));
    assert(spec_unescape(sf) == Ok::<Seq<char>, Error>(one));

    // the braced form
    let sb = seq!['\\', 'u', '{'] + db + seq!['}'];
    let n = db.len() as int;
    assert(sb.len() == n + 4 && sb[0] == '\\' && sb[1] == 'u' && sb[2] == '{');
    let restb = sb.skip(2);
    assert(restb.len() == n + 2);
    assert(restb[0] == '{');
    assert(forall|t: int| 1 <= t < n + 1 ==> restb[t] == db[t - 1]);
    assert(restb[n + 1] == '}');
    lemma_find_close_brace_is(restb, 1, n + 1);
    assert(restb.subrange(1, n + 1) =~= db);
    assert(hex_char_step(db) == Ok::<char, Error>((v as char)));
    assert(unicode_step(restb) == (Ok::<char, Error>((v as char)), n + 2));
    assert(!is_simple_escape('u'));
    assert(escape_step(sb, 0) == Ok::<(char, int), Error>(((v as char), n + 4)));
    assert(unescape_from(sb, n + 4) == Ok::<Seq<char>, Error>(Seq::empty()));
    assert(spec_unescape(sb) == Ok::<Seq<char>, Error>(one));
}

/// The byte escape decodes two hex digits into one byte, read as one of
/// the first 256 characters.
pub proof fn lemma_byte_escape(h0: char, h1: char)
    requires
        is_hex_digit(h0),
        is_hex_digit(h1),
    ensures
        spec_unescape(seq!['\\', 'x', h0, h1]) == Ok::<Seq<char>, Error>(
            seq![(((hex_val(h0) * 16 + hex_val(h1)) as u32) as char)],
        ),
{
    let s = seq!['\\', 'x', h0, h1];
    assert(s.len() == 4 && s[0] == '\\' && s[1] == 'x');
    let rest = s.skip(2);
    assert(rest =~= seq![h0, h1]);
    assert(!is_simple_escape('x'));
    let decoded = (((hex_val(h0) * 16 + hex_val(h1)) as u32) as char);
    assert(byte_step(rest) == (Ok::<char, Error>(decoded), 2int));
    assert(escape_step(s, 0) == Ok::<(char, int), Error>((decoded, 4int)));
    assert(unescape_from(s, 4) == Ok::<Seq<char>, Error>(Seq::empty()));
    assert(seq![decoded] + Seq::<char>::empty() =~= seq![decoded]);
}

/// Octal consumption is greedy but bounded: a first digit `0`-`3` takes up
/// to two more octal digits, a first digit `4`-`7` at most one, the scan
/// stops early only at a non-octal character or the end of the input, and
/// the decoded value always fits in one byte.
pub proof fn lemma_octal_escape(s: Seq<char>, p: int)
    requires
        0 <= p < s.len(),
        s[p] == '\\',
        p + 1 < s.len(),
        is_oct_digit(s[p + 1]),
    ensures
        ({
            let c = s[p + 1];
            let k = octal_take(s.skip(p + 2), octal_extra(c));
            let digits = seq![c] + s.skip(p + 2).subrange(0, k);
            &&& escape_step(s, p) == Ok::<(char, int), Error>(
                (((oct_seq_val(digits) as u32) as char), p + 2 + k),
            )
            &&& oct_seq_val(digits) < 256
            &&& (oct_val(c) <= 3 ==> k <= 2)
            &&& (4 <= oct_val(c) ==> k <= 1)
            &&& (k < octal_extra(c) ==> p + 2 + k >= s.len() || !is_oct_digit(s[p + 2 + k]))
        }),
{
    let c = s[p + 1];
    let rest = s.skip(p + 2);
    let k = octal_take(rest, octal_extra(c));
    let digits = seq![c] + rest.subrange(0, k);
    assert(!is_simple_escape(c) && c != 'u' && c != 'x') by {
        assert('0' as u32 == 48 && '7' as u32 == 55);
    }
    assert(oct_seq_val(Seq::<char>::empty()) == 0);
    if k == 0 {
        assert(digits =~= seq![c]);
        assert(digits.drop_last() =~= Seq::<char>::empty());
        assert(oct_seq_val(digits) == oct_val(c));
    } else if k == 1 {
        assert(digits.drop_last() =~= seq![c]);
        assert(seq![c].drop_last() =~= Seq::<char>::empty());
        assert(digits.last() == rest[0]);
        assert(oct_seq_val(seq![c]) == oct_val(c));
        assert(oct_seq_val(digits) == oct_val(c) * 8 + oct_val(rest[0]));
    } else {
        assert(k == 2);
        assert(oct_val(c) <= 3);
        assert(digits.drop_last() =~= seq![c] + rest.subrange(0, 1));
        assert((seq![c] + rest.subrange(0, 1)).drop_last() =~= seq![c]);
        assert(seq![c].drop_last() =~= Seq::<char>::empty());
        assert(digits.last() == rest[1]);
        assert((seq![c] + rest.subrange(0, 1)).last() == rest[0]);
        assert(oct_seq_val(seq![c]) == oct_val(c));
        assert(oct_seq_val(seq![c] + rest.subrange(0, 1)) == oct_val(c) * 8 + oct_val(rest[0]));
        assert(oct_seq_val(digits) == (oct_val(c) * 8 + oct_val(rest[0])) * 8 + oct_val(rest[1]));
    }
    assert(rest.len() == s.len() - p - 2);
    assert(forall|t: int| 0 <= t < rest.len() ==> rest[t] == s[p + 2 + t]);
}

/// Trailing literal text after an escape passes through unchanged.
pub proof fn lemma_trailing_text(s: Seq<char>, decoded: char, j: int)
    requires
        s.len() > 0,
        s[0] == '\\',
        escape_step(s, 0) == Ok::<(char, int), Error>((decoded, j)),
        forall|i: int| j <= i < s.len() ==> s[i] != '\\',
    ensures
        spec_unescape(s) == Ok::<Seq<char>, Error>(seq![decoded] + s.skip(j)),
{
    lemma_escape_step_bounds(s, 0);
    lemma_no_backslash_from(s, j);
}

} // verus!
