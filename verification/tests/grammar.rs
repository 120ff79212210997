use brex::decode;
use brex::parse::Error;

/// Grammar text with an opened group delimiter and no matching close
/// delimiter fails to parse with a grammar mismatch.
#[test]
fn open_group_without_close() {
    assert!(matches!(decode("❮x{a,b"), Err(Error::GrammarMismatch { .. })));
    assert!(matches!(decode("❮x{a,b❯"), Err(Error::GrammarMismatch { .. })));
}

/// A block opened without any group fails to parse.
#[test]
fn empty_block() {
    assert!(matches!(decode("❮❯"), Err(Error::GrammarMismatch { .. })));
}

/// A numeric block with no entries fails to parse.
#[test]
fn empty_numeric_block() {
    assert!(matches!(decode("❮x{a{}}❯"), Err(Error::GrammarMismatch { .. })));
}

/// A numeric block containing 1→5 expands to five concrete occurrences
/// for values 1,2,3,4,5 in ascending order.
#[test]
fn range_expands_ascending() {
    assert_eq!(decode("pre❮x{a{1→5}}❯").unwrap(), "prexa1xa2xa3xa4xa5");
}

/// A parsed digit run that does not fit an unsigned 32-bit integer is a
/// numeric overflow error, with its position.
#[test]
fn parse_numeric_overflow() {
    assert!(matches!(
        decode("❮x{a{99999999999}}❯"),
        Err(Error::NumericOverflow { .. })
    ));
    assert_eq!(decode("❮x{a{4294967295}}❯").unwrap(), "xa4294967295");
}

/// Text after the final block end symbol is a verbatim postamble, never
/// re-parsed as another group.
#[test]
fn postamble_is_verbatim() {
    assert_eq!(decode("pre❮x{a}❯post").unwrap(), "prexapost");
    assert_eq!(decode("pre❮x{a}❯p{q}❯").unwrap(), "prexap{q}❯");
}

/// Text without a block start symbol is a pure literal.
#[test]
fn literal_text() {
    assert_eq!(decode("plain text, no block").unwrap(), "plain text, no block");
    assert_eq!(decode("").unwrap(), "");
}

/// A numeric list mixes singles and ranges, comma-separated.
#[test]
fn mixed_numeric_list() {
    assert_eq!(decode("❮x{a{1→3,7}}❯").unwrap(), "xa1xa2xa3xa7");
}

/// Suffixes expand in insertion order, each numeric in ascending order.
#[test]
fn suffix_insertion_order() {
    assert_eq!(decode("❮x{lit,a{2,5}}❯").unwrap(), "xlitxa2xa5");
}

/// A group's prefix may be empty.
#[test]
fn empty_prefix() {
    assert_eq!(decode("❮{a,b}❯").unwrap(), "ab");
}

/// Errors carry the character position of the violation.
#[test]
fn error_positions() {
    // ❮=0 x=1 {=2 a=3 {=4 }=5 — the empty numeric block is noticed at 5.
    assert_eq!(decode("❮x{a{}}❯"), Err(Error::GrammarMismatch { at: 5 }));
    // The oversized digit run starts at character 5.
    assert_eq!(
        decode("❮x{a{99999999999}}❯"),
        Err(Error::NumericOverflow { at: 5 })
    );
}
