use unescaper::unescape;
use unescaper::Error;

#[test]
fn error() {
    assert_eq!(unescape(r"\").unwrap_err(), Error::IncompleteStr(0));
    assert_eq!(unescape(r"\0\").unwrap_err(), Error::IncompleteStr(2));

    assert_eq!(unescape(r"\{}").unwrap_err(), Error::InvalidChar { char: '{', pos: 1 });
    assert_eq!(unescape(r"\0\{}").unwrap_err(), Error::InvalidChar { char: '{', pos: 3 });

    let e = unescape(r"\u{g}").unwrap_err();
    assert_eq!(e.message(), "parse int error, break at 4");
    assert_eq!(e.source().unwrap().message(), "invalid digit found in string");

    let e = unescape(r"\0\u{g}").unwrap_err();
    assert_eq!(e.message(), "parse int error, break at 6");
    assert_eq!(e.source().unwrap().message(), "invalid digit found in string");
}

#[test]
fn unescape_unicode() {
    assert_eq!(unescape(r"\u0000").unwrap(), "\0");
    assert_eq!(unescape(r"\u0009").unwrap(), "\t");
    assert_eq!(unescape(r"\u000a").unwrap(), "\n");
    assert_eq!(unescape(r"\uffff").unwrap(), "\u{ffff}");
    assert_eq!(unescape(r"\u0000XavierJane").unwrap(), "\0XavierJane");

    assert_eq!(unescape(r"\u{0}").unwrap(), "\0");
    assert_eq!(unescape(r"\u{9}").unwrap(), "\t");
    assert_eq!(unescape(r"\u{a}").unwrap(), "\n");
    assert_eq!(unescape(r"\u{ffff}").unwrap(), "\u{ffff}");
    assert_eq!(unescape(r"\u{1F600}").unwrap(), "\u{1F600}");
    assert_eq!(unescape(r"\u{1F600}").unwrap(), "😀");
    assert_eq!(unescape(r"\u{0}XavierJane").unwrap(), "\0XavierJane");
}

#[test]
fn unescape_byte() {
    assert_eq!(unescape(r"\x00").unwrap(), "\x00");
    assert_eq!(unescape(r"\x09").unwrap(), "\t");
    assert_eq!(unescape(r"\x0a").unwrap(), "\n");
    assert_eq!(unescape(r"\x7f").unwrap(), "\x7f");
    assert_eq!(unescape(r"\x00XavierJane").unwrap(), "\x00XavierJane");
}

#[test]
fn unescape_octal() {
    assert_eq!(unescape(r"\0").unwrap(), "\0");
    assert_eq!(unescape(r"\11").unwrap(), "\t");
    assert_eq!(unescape(r"\12").unwrap(), "\n");
    assert_eq!(unescape(r"\377").unwrap(), "\u{00ff}");
    assert_eq!(unescape(r"\0XavierJane").unwrap(), "\0XavierJane");
}

#[test]
fn unescape_special_symbols() {
    assert_eq!(unescape(r"\b").unwrap(), "\u{0008}");
    assert_eq!(unescape(r"\f").unwrap(), "\u{000c}");
    assert_eq!(unescape(r"\n").unwrap(), "\n");
    assert_eq!(unescape(r"\r").unwrap(), "\r");
    assert_eq!(unescape(r"\t").unwrap(), "\t");
    assert_eq!(unescape(r"\'").unwrap(), "\'");
    assert_eq!(unescape(r#"\""#).unwrap(), "\"");
    assert_eq!(unescape(r"\\").unwrap(), "\\");
    assert_eq!(unescape(r"//").unwrap(), "//");
}
