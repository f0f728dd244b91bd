//! The text utilities: decimal rendering, line splitting, and number tokens.

use gridpuzzle::text::i64_to_string;
use gridpuzzle::text::parse_u64;
use gridpuzzle::text::split_lines;
use gridpuzzle::text::split_ws;
use gridpuzzle::text::u64_to_string;

#[test]
fn decimal_rendering() {
    assert_eq!(u64_to_string(0), "0");
    assert_eq!(u64_to_string(7), "7");
    assert_eq!(u64_to_string(10092), "10092");
    assert_eq!(u64_to_string(u64::MAX), "18446744073709551615");
    assert_eq!(i64_to_string(-7), "-7");
    assert_eq!(i64_to_string(0), "0");
    assert_eq!(i64_to_string(i64::MIN), "-9223372036854775808");
}

#[test]
fn number_tokens() {
    assert_eq!(parse_u64(b"190"), Some(190));
    assert_eq!(parse_u64(b"+19"), Some(19));
    assert_eq!(parse_u64(b"0"), Some(0));
    assert_eq!(parse_u64(b""), None);
    assert_eq!(parse_u64(b"+"), None);
    assert_eq!(parse_u64(b"1x2"), None);
    assert_eq!(parse_u64(b"18446744073709551615"), Some(u64::MAX));
    assert_eq!(parse_u64(b"18446744073709551616"), None);
    assert_eq!(parse_u64(b"99999999999999999999999"), None);
}

#[test]
fn line_and_word_splitting() {
    let lines = split_lines(b"ab\ncd\n\nef");
    let views: Vec<&[u8]> = lines.iter().map(|l| l.as_slice()).collect();
    assert_eq!(views, vec![b"ab" as &[u8], b"cd", b"", b"ef"]);
    // a final line break closes the last line without opening an empty one
    assert_eq!(split_lines(b"ab\n").len(), 1);
    assert_eq!(split_lines(b"").len(), 0);
    // carriage returns before a break are dropped
    let crlf = split_lines(b"ab\r\ncd");
    assert_eq!(crlf[0].as_slice(), b"ab");
    let words = split_ws(b"  10  19 \t 7\n");
    let wviews: Vec<&[u8]> = words.iter().map(|w| w.as_slice()).collect();
    assert_eq!(wviews, vec![b"10" as &[u8], b"19", b"7"]);
}
