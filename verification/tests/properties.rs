use unescaper::unescape;
use unescaper::Error;
use unescaper::IntErrorKind;
use unescaper::Unescaper;

#[test]
fn identity_without_backslash() {
    assert_eq!(unescape("").unwrap(), "");
    assert_eq!(unescape("XavierJane").unwrap(), "XavierJane");
    let once = unescape("plain text, no escapes").unwrap();
    let twice = unescape(&once).unwrap();
    assert_eq!(once, "plain text, no escapes");
    assert_eq!(twice, once);
}

#[test]
fn simple_escapes_round_trip() {
    for (escaped, unescaped) in [
        (r"\b", "\u{0008}"),
        (r"\f", "\u{000c}"),
        (r"\n", "\n"),
        (r"\r", "\r"),
        (r"\t", "\t"),
        (r"\'", "'"),
        ("\\\"", "\""),
        (r"\\", "\\"),
        (r"\/", "/"),
    ] {
        assert_eq!(unescape(escaped).unwrap(), unescaped);
    }
}

#[test]
fn unicode_forms_agree() {
    assert_eq!(unescape(r"\u0041").unwrap(), "A");
    assert_eq!(unescape(r"\u{41}").unwrap(), "A");
    assert_eq!(unescape(r"\u0041").unwrap(), unescape(r"\u{41}").unwrap());
}

#[test]
fn unterminated_brace_takes_the_rest() {
    assert_eq!(unescape(r"\u{41").unwrap(), "A");
}

#[test]
fn octal_greedy_but_bounded() {
    // a first digit 0-3 takes at most two more octal digits
    assert_eq!(unescape(r"\0001").unwrap(), "\u{0}1");
    assert_eq!(unescape(r"\377").unwrap(), "\u{ff}");
    // a first digit 4-7 takes at most one more octal digit
    assert_eq!(unescape(r"\477").unwrap(), "'7");
    assert_eq!(unescape(r"\47").unwrap(), "'");
    // the scan stops early at a non-octal character
    assert_eq!(unescape(r"\38").unwrap(), "\u{3}8");
    assert_eq!(unescape(r"\0XavierJane").unwrap(), "\0XavierJane");
}

#[test]
fn byte_escape_is_latin1() {
    assert_eq!(unescape(r"\x41").unwrap(), "A");
    assert_eq!(unescape(r"\x7f").unwrap(), "\x7f");
    assert_eq!(unescape(r"\xff").unwrap(), "\u{ff}");
}

#[test]
fn trailing_text_is_preserved() {
    assert_eq!(unescape(r"\u0000XavierJane").unwrap(), "\0XavierJane");
    assert_eq!(unescape(r"\x41 then more text").unwrap(), "A then more text");
    assert_eq!(unescape(r"\11 tab first").unwrap(), "\t tab first");
}

#[test]
fn incomplete_positions() {
    assert_eq!(unescape(r"\u").unwrap_err(), Error::IncompleteStr(1));
    assert_eq!(unescape(r"\ua").unwrap_err(), Error::IncompleteStr(2));
    assert_eq!(unescape(r"\uab").unwrap_err(), Error::IncompleteStr(4));
    assert_eq!(unescape(r"\uabc").unwrap_err(), Error::IncompleteStr(6));
    assert_eq!(unescape(r"\x").unwrap_err(), Error::IncompleteStr(1));
    assert_eq!(unescape(r"\xa").unwrap_err(), Error::IncompleteStr(3));
}

#[test]
fn invalid_char_reports_char_and_position() {
    assert_eq!(unescape(r"\8").unwrap_err(), Error::InvalidChar { char: '8', pos: 1 });
    // a surrogate code point is rejected with the last digit as the culprit
    assert_eq!(unescape(r"\ud800").unwrap_err(), Error::InvalidChar { char: '0', pos: 5 });
    let e = unescape(r"\{}").unwrap_err();
    assert_eq!(e.message(), "invalid char, '{' break at 1");
}

#[test]
fn parse_failures_by_kind() {
    let e = unescape(r"\u{}").unwrap_err();
    assert_eq!(e, Error::ParseIntError { source: IntErrorKind::Empty, pos: 3 });
    assert_eq!(e.message(), "parse int error, break at 3");
    assert_eq!(e.source().unwrap().message(), "cannot parse integer from empty string");

    let e = unescape(r"\u{g}").unwrap_err();
    assert_eq!(e, Error::ParseIntError { source: IntErrorKind::InvalidDigit, pos: 4 });

    let e = unescape(r"\u{fffffffff}").unwrap_err();
    assert_eq!(e, Error::ParseIntError { source: IntErrorKind::PosOverflow, pos: 12 });
    assert_eq!(e.message(), "parse int error, break at 12");
    assert_eq!(e.source().unwrap().message(), "number too large to fit in target type");

    let e = unescape(r"\xg0").unwrap_err();
    assert_eq!(e, Error::ParseIntError { source: IntErrorKind::InvalidDigit, pos: 3 });
}

#[test]
fn incremental_decoder_type() {
    let mut u = Unescaper::new(r"\t and \u{1F600}");
    assert_eq!(u.unescape().unwrap(), "\t and \u{1F600}");
    // the cursor is exhausted afterwards
    assert_eq!(u.unescape().unwrap(), "");
}

#[test]
fn cursor_contract() {
    let mut u = Unescaper::new("ab");
    // the cache holds the characters in reverse order
    assert_eq!(u.chars, vec!['b', 'a']);
    assert_eq!(u.remaining(), 2);
    assert_eq!(u.peek_front(), Some('a'));
    assert_eq!(u.pop_front(), Some('a'));
    assert_eq!(u.remaining(), 1);
    assert_eq!(u.pop_front(), Some('b'));
    assert_eq!(u.pop_front(), None);
    assert_eq!(u.peek_front(), None);
    assert_eq!(u.remaining(), 0);
}

#[test]
fn messages_render_positions() {
    assert_eq!(
        unescape(r"\").unwrap_err().message(),
        "incomplete str, break at 0"
    );
    let mut s = "a".repeat(100);
    s.push('\\');
    assert_eq!(unescape(&s).unwrap_err(), Error::IncompleteStr(100));
    assert_eq!(
        unescape(&s).unwrap_err().message(),
        "incomplete str, break at 100"
    );
}
