use esh::{parse_double_quoted, shell_split, ShellParseError};

// ---- basic splitting -------------------------------------------------------

#[test]
fn lib_empty_input() {
    assert_eq!(shell_split("").unwrap(), Vec::<String>::new());
}

#[test]
fn lib_whitespace_only() {
    assert_eq!(shell_split("   \t\n  ").unwrap(), Vec::<String>::new());
}

#[test]
fn lib_simple_words() {
    assert_eq!(
        shell_split("hello world foo").unwrap(),
        vec!["hello", "world", "foo"],
    );
}

#[test]
fn lib_extra_whitespace() {
    assert_eq!(
        shell_split("  hello   world  ").unwrap(),
        vec!["hello", "world"],
    );
}

// ---- single quotes ---------------------------------------------------------

#[test]
fn lib_single_quoted() {
    assert_eq!(
        shell_split("'hello world' foo").unwrap(),
        vec!["hello world", "foo"],
    );
}

#[test]
fn lib_single_quoted_preserves_backslash() {
    assert_eq!(
        shell_split(r"'hello\nworld'").unwrap(),
        vec![r"hello\nworld"]
    );
}

#[test]
fn lib_empty_single_quotes() {
    assert_eq!(shell_split("'' foo").unwrap(), vec!["", "foo"]);
}

#[test]
fn lib_unmatched_single_quote() {
    assert_eq!(
        shell_split("'hello"),
        Err(ShellParseError::UnmatchedSingleQuote),
    );
}

// ---- double quotes ---------------------------------------------------------

#[test]
fn lib_double_quoted() {
    assert_eq!(
        shell_split(r#""hello world" foo"#).unwrap(),
        vec!["hello world", "foo"],
    );
}

#[test]
fn lib_double_quoted_escapes() {
    assert_eq!(
        shell_split(r#""hello\nworld""#).unwrap(),
        vec!["hello\nworld"],
    );
}

#[test]
fn lib_double_quoted_unknown_escape_preserved() {
    // \z is not a known escape, so in double quotes it stays as \z
    assert_eq!(shell_split(r#""\z""#).unwrap(), vec![r"\z"]);
}

#[test]
fn lib_empty_double_quotes() {
    assert_eq!(shell_split(r#""""#).unwrap(), vec![""]);
}

#[test]
fn lib_unmatched_double_quote() {
    assert_eq!(
        shell_split(r#""hello"#),
        Err(ShellParseError::UnmatchedDoubleQuote),
    );
}

// ---- unquoted backslash ----------------------------------------------------

#[test]
fn lib_backslash_space() {
    assert_eq!(shell_split(r"hello\ world").unwrap(), vec!["hello world"]);
}

#[test]
fn lib_backslash_newline_continuation() {
    assert_eq!(shell_split("hello\\\nworld").unwrap(), vec!["helloworld"]);
}

#[test]
fn lib_trailing_backslash() {
    assert_eq!(
        shell_split("hello\\"),
        Err(ShellParseError::TrailingBackslash),
    );
}

#[test]
fn lib_unquoted_unknown_escape_strips_backslash() {
    // In unquoted context, \z becomes z
    assert_eq!(shell_split(r"\z").unwrap(), vec!["z"]);
}

// ---- escape sequences ------------------------------------------------------

#[test]
fn lib_simple_escapes() {
    assert_eq!(shell_split(r"\a").unwrap(), vec!["\x07"]);
    assert_eq!(shell_split(r"\b").unwrap(), vec!["\x08"]);
    assert_eq!(shell_split(r"\e").unwrap(), vec!["\x1B"]);
    assert_eq!(shell_split(r"\E").unwrap(), vec!["\x1B"]);
    assert_eq!(shell_split(r"\f").unwrap(), vec!["\x0C"]);
    assert_eq!(shell_split(r"\n").unwrap(), vec!["\n"]);
    assert_eq!(shell_split(r"\r").unwrap(), vec!["\r"]);
    assert_eq!(shell_split(r"\t").unwrap(), vec!["\t"]);
    assert_eq!(shell_split(r"\v").unwrap(), vec!["\x0B"]);
    assert_eq!(shell_split(r"\\").unwrap(), vec!["\\"]);
    assert_eq!(shell_split(r"\'").unwrap(), vec!["'"]);
    assert_eq!(shell_split(r#"\""#).unwrap(), vec!["\""]);
}

#[test]
fn lib_octal_escape() {
    // \0101 = 'A' (65 decimal)
    assert_eq!(shell_split(r"\0101").unwrap(), vec!["A"]);
}

#[test]
fn lib_octal_nul() {
    assert_eq!(shell_split(r"\0").unwrap(), vec!["\0"]);
}

// ---- hex escape ------------------------------------------------------------

#[test]
fn lib_hex_escape() {
    assert_eq!(shell_split(r"\x41\x42\x43").unwrap(), vec!["ABC"]);
}

#[test]
fn lib_hex_escape_single_digit() {
    assert_eq!(shell_split(r"\xA").unwrap(), vec!["\n"]); // 0x0A = newline
}

#[test]
fn lib_hex_escape_invalid() {
    assert_eq!(shell_split(r"\xZZ"), Err(ShellParseError::InvalidHexEscape),);
}

#[test]
fn hex_escape_high_byte_is_invalid_utf8_in_split() {
    // \xFF alone is not valid UTF-8, so shell_split rejects it
    assert_eq!(shell_split(r"\xFF"), Err(ShellParseError::InvalidUtf8));
}

// ---- hex escape via parse_double_quoted ------------------------------------

#[test]
fn lib_dq_hex_raw_byte() {
    // parse_double_quoted returns raw bytes — \xFF is byte 0xFF
    assert_eq!(parse_double_quoted(r"\xFF").unwrap(), vec![0xFF]);
}

#[test]
fn lib_dq_hex_high_bytes() {
    assert_eq!(
        parse_double_quoted(r"\x80\xFE\xFF").unwrap(),
        vec![0x80, 0xFE, 0xFF],
    );
}

// ---- unicode escape --------------------------------------------------------

#[test]
fn lib_unicode_escape_ascii() {
    assert_eq!(shell_split(r"\u{41}").unwrap(), vec!["A"]);
}

#[test]
fn lib_unicode_escape_emoji() {
    assert_eq!(shell_split(r"\u{1f980}").unwrap(), vec!["🦀"]);
}

#[test]
fn lib_unicode_escape_missing_brace() {
    assert_eq!(
        shell_split(r"\u0041"),
        Err(ShellParseError::InvalidUnicodeEscape),
    );
}

#[test]
fn lib_unicode_escape_empty_braces() {
    assert_eq!(
        shell_split(r"\u{}"),
        Err(ShellParseError::InvalidUnicodeEscape),
    );
}

#[test]
fn lib_unicode_escape_too_many_digits() {
    assert_eq!(
        shell_split(r"\u{1234567}"),
        Err(ShellParseError::InvalidUnicodeEscape),
    );
}

#[test]
fn lib_unicode_escape_invalid_code_point() {
    assert_eq!(
        shell_split(r"\u{D800}"),
        Err(ShellParseError::InvalidUnicodeCodePoint(0xD800)),
    );
}

// ---- comments --------------------------------------------------------------

#[test]
fn lib_comment_at_start() {
    assert_eq!(
        shell_split("# this is a comment").unwrap(),
        Vec::<String>::new()
    );
}

#[test]
fn lib_comment_after_words() {
    assert_eq!(
        shell_split("hello world # comment").unwrap(),
        vec!["hello", "world"],
    );
}

#[test]
fn lib_hash_inside_word_is_not_comment() {
    assert_eq!(shell_split("foo#bar").unwrap(), vec!["foo#bar"]);
}

#[test]
fn lib_hash_in_quotes_is_not_comment() {
    assert_eq!(
        shell_split(r##""# not a comment""##).unwrap(),
        vec!["# not a comment"]
    );
}

// ---- parse_double_quoted ---------------------------------------------------

#[test]
fn lib_dq_parse_plain() {
    assert_eq!(parse_double_quoted("hello world").unwrap(), b"hello world");
}

#[test]
fn lib_dq_parse_escapes() {
    assert_eq!(
        parse_double_quoted(r"hello\nworld").unwrap(),
        b"hello\nworld"
    );
}

#[test]
fn lib_dq_parse_hex() {
    assert_eq!(parse_double_quoted(r"\x41\x42\x43").unwrap(), b"ABC");
}

#[test]
fn lib_dq_parse_unicode() {
    assert_eq!(parse_double_quoted(r"\u{1f980}").unwrap(), "🦀".as_bytes());
}

#[test]
fn lib_dq_parse_quotes_are_literal() {
    assert_eq!(
        parse_double_quoted(r#"hello "world""#).unwrap(),
        br#"hello "world""#.to_vec(),
    );
}

#[test]
fn lib_dq_parse_unknown_escape_preserved() {
    assert_eq!(parse_double_quoted(r"\z").unwrap(), br"\z".to_vec());
}

#[test]
fn lib_dq_parse_empty() {
    assert_eq!(parse_double_quoted("").unwrap(), b"");
}

#[test]
fn lib_dq_parse_trailing_backslash() {
    assert_eq!(
        parse_double_quoted("hello\\"),
        Err(ShellParseError::TrailingBackslash),
    );
}

// ---- mixed quoting ---------------------------------------------------------

#[test]
fn lib_adjacent_quotes_merge() {
    assert_eq!(shell_split(r#"hel"lo wo"rld"#).unwrap(), vec!["hello world"]);
}

#[test]
fn lib_single_inside_double() {
    assert_eq!(
        shell_split(r#""it's a test""#).unwrap(),
        vec!["it's a test"],
    );
}

#[test]
fn lib_double_inside_single() {
    assert_eq!(
        shell_split(r#"'say "hello"'"#).unwrap(),
        vec![r#"say "hello""#],
    );
}

#[test]
fn lib_complex_mixed() {
    assert_eq!(
        shell_split(r#"echo "hello 'world'" foo\ bar 'baz "qux"'"#).unwrap(),
        vec!["echo", "hello 'world'", "foo bar", r#"baz "qux""#],
    );
}
