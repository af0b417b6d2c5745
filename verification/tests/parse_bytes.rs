use esh::{shell_parse_arg_bytes, shell_parse_line_bytes, shell_split, ShellParseError};

// ---- octal and hex limits --------------------------------------------------

#[test]
fn octal_max() {
    assert_eq!(shell_parse_line_bytes(r"\0377").unwrap(), vec![vec![0xFF]],);
}

#[test]
fn hex_escape_high_byte_in_split() {
    assert_eq!(shell_parse_line_bytes(r"\xFF").unwrap(), vec![vec![0xFF]],);
}

#[test]
fn parse_dq_hex_raw_byte() {
    assert_eq!(shell_parse_arg_bytes(r"\xFF").unwrap(), vec![0xFF],);
}

#[test]
fn parse_dq_hex_high_bytes() {
    assert_eq!(
        shell_parse_arg_bytes(r"\x80\xFE\xFF").unwrap(),
        vec![0x80, 0xFE, 0xFF],
    );
}

#[test]
fn max_length_octal() {
    assert_eq!(shell_parse_arg_bytes(r"\0377").unwrap(), vec![0xFF],);
}

#[test]
fn max_length_hex() {
    assert_eq!(shell_parse_arg_bytes(r"\xFF").unwrap(), vec![0xFF],);
}

// ---- octal overflow behaviour ----------------------------------------------

#[test]
fn bytes_octal_overflow_stops_early() {
    // \0777: first two digits give \077 = 63 = '?', third '7' would
    // push to 511 which overflows a byte, so it stays as literal text.
    assert_eq!(shell_split(r"\0777").unwrap(), vec!["?7"]);
}

#[test]
fn bytes_octal_overflow_all_digits() {
    // \0400 would be 256, which overflows a byte. Only \040 (32, space)
    // is consumed; the trailing '0' is literal.
    assert_eq!(shell_split(r"\0400").unwrap(), vec![" 0"]);
}

// ---- byte-level splitting --------------------------------------------------

#[test]
fn bytes_empty_input() {
    assert_eq!(shell_parse_line_bytes("").unwrap(), Vec::<Vec<u8>>::new());
}

#[test]
fn bytes_simple_words() {
    assert_eq!(
        shell_parse_line_bytes("hello world").unwrap(),
        vec![b"hello".to_vec(), b"world".to_vec()],
    );
}

#[test]
fn bytes_unmatched_single_quote() {
    assert_eq!(
        shell_parse_line_bytes("'hello"),
        Err(ShellParseError::UnmatchedSingleQuote),
    );
}

#[test]
fn bytes_high_byte_word_is_kept() {
    // unlike shell_split, the byte-level splitter keeps non-UTF-8 words
    assert_eq!(
        shell_parse_line_bytes(r"a\xFFb").unwrap(),
        vec![vec![b'a', 0xFF, b'b']],
    );
}

#[test]
fn bytes_arg_empty() {
    assert_eq!(shell_parse_arg_bytes("").unwrap(), Vec::<u8>::new());
}

#[test]
fn bytes_arg_trailing_backslash() {
    assert_eq!(
        shell_parse_arg_bytes("x\\"),
        Err(ShellParseError::TrailingBackslash),
    );
}

// ---- unicode edge ----------------------------------------------------------

#[test]
fn bytes_max_unicode_scalar() {
    // \u{10FFFF} is the maximum valid Unicode code point
    assert_eq!(shell_split(r"\u{10FFFF}").unwrap(), vec!["\u{10FFFF}"],);
}

#[test]
fn bytes_unicode_unterminated() {
    assert_eq!(
        shell_parse_arg_bytes(r"\u{41"),
        Err(ShellParseError::InvalidUnicodeEscape),
    );
}
