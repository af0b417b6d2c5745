//! POSIX-shell-like line tokenizer and escape decoder.
//!
//! The crate splits a line of text into words, honouring whitespace,
//! single and double quoting, comments and backslash escapes, and offers a
//! standalone decoder for a single, already-delimited argument string.
//! The semantics of every public function are stated over the spec-level
//! scanner in [`model`] and proved; the general laws of the tokenizer are
//! proved in [`laws`].

use vstd::prelude::*;

pub mod laws;
pub mod model;
pub mod parse;
pub mod shell;
pub mod util;

use crate::model::{arg_bytes, line_words_text, scan_line, ScanState};
use vstd::utf8::{decode_utf8, encode_utf8, valid_utf8};

verus! {

pub use crate::parse::{shell_parse_arg_bytes, shell_parse_line_bytes};

pub use crate::util::make_env_ident;

/// Errors that can occur when parsing a shell line.
#[derive(Debug, Clone, PartialEq, Eq)]
pub enum ShellParseError {
    /// A single-quoted string was never closed.
    UnmatchedSingleQuote,
    /// A double-quoted string was never closed.
    UnmatchedDoubleQuote,
    /// Input ends with a lone backslash.
    TrailingBackslash,
    /// A `\xNN` sequence is malformed or incomplete.
    InvalidHexEscape,
    /// A `\u{NNNN}` sequence is malformed or incomplete.
    InvalidUnicodeEscape,
    /// The code point in a `\u{NNNN}` escape is not a valid Unicode scalar value.
    InvalidUnicodeCodePoint(u32),
    /// The resulting byte sequence is not valid UTF-8.
    InvalidUtf8,
}

/// Relies on String::from_utf8: it succeeds exactly on valid UTF-8, and
/// the returned string is the decoding of those bytes.
#[verifier::external_body]
fn bytes_to_string(bytes: Vec<u8>) -> (r: Option<String>)
    ensures
        (match r {
            Some(s) => valid_utf8(bytes@) && s@ == decode_utf8(bytes@),
            None => !valid_utf8(bytes@),
        }),
{
    String::from_utf8(bytes).ok()
}

/// Parse a single string using double-quote escape rules.
///
/// Processes backslash escape sequences in `input` and returns the raw
/// bytes.  This is useful for interpreting escape sequences in individual
/// values, such as arguments obtained from the process environment.
///
/// Unlike [`shell_split`], double quotes are **not** treated as
/// delimiters: the entire input is consumed and `"` characters are kept
/// literally.  Unknown `\X` sequences are preserved as `\X` (double-quote
/// semantics).
///
/// The result is a byte vector because `\xNN` escapes produce raw bytes
/// that may not be valid UTF-8.
///
/// See [`shell_split`] for the full list of supported escape sequences.
pub fn parse_double_quoted(input: &str) -> (r: Result<Vec<u8>, ShellParseError>)
    ensures
        (match r {
            Ok(b) => arg_bytes(input@) == Ok::<Seq<u8>, ShellParseError>(b@),
            Err(e) => arg_bytes(input@) == Err::<Seq<u8>, ShellParseError>(e),
        }),
{
    parse::shell_parse_arg_bytes(input)
}

/// Split a string into words using POSIX shell-like parsing rules.
///
/// Supports:
/// - **Unquoted words** split on whitespace
/// - **Single quotes** (`'...'`): everything inside is literal, no escape
///   processing
/// - **Double quotes** (`"..."`): allows escape sequences; unknown `\X` is
///   kept as `\X`
/// - **Backslash escapes** (in unquoted and double-quoted contexts):
///   - `\\`, `\'`, `\"`, `\$`, `` \` ``, `\ ` (literal versions)
///   - `\a` (bell), `\b` (backspace), `\e`/`\E` (escape 0x1B), `\f` (form
///     feed), `\n` (newline), `\r` (carriage return), `\t` (tab), `\v`
///     (vertical tab)
///   - `\0[ooo]` — octal (up to 3 octal digits after the `0`, capped at 255)
///   - `\x[HH]` — C-style hex byte (1-2 hex digits)
///   - `\u{H..H}` — Rust-style unicode scalar (1-6 hex digits inside braces)
/// - **`\` + newline** is a line continuation (both characters are
///   discarded)
/// - **`#` comments** — an unquoted `#` at word start consumes the rest of
///   the line
///
/// Unlike [`shell_parse_line_bytes`], every word is validated as UTF-8
/// when it is completed; a word holding raw non-UTF-8 bytes (e.g. a bare
/// `\xFF`) fails the whole call with `InvalidUtf8`.
pub fn shell_split(input: &str) -> (r: Result<Vec<String>, ShellParseError>)
    ensures
        (match r {
            Ok(words) => line_words_text(input@) == Ok::<Seq<Seq<u8>>, ShellParseError>(
                words@.map_values(|w: String| encode_utf8(w@)),
            ),
            Err(e) => line_words_text(input@) == Err::<Seq<Seq<u8>>, ShellParseError>(e),
        }),
{
    let s = parse::str_to_chars(input);
    let mut words: Vec<String> = Vec::new();
    let mut current: Vec<u8> = Vec::new();
    let mut in_word = false;
    let mut state = ScanState::Normal;
    let mut i: usize = 0;
    proof {
        assert(words@.map_values(|w: String| encode_utf8(w@)) =~= Seq::<Seq<u8>>::empty());
    }

    while i < s.len()
        invariant
            i <= s@.len(),
            s@ == input@,
            line_words_text(input@) == scan_line(
                s@,
                i as int,
                state,
                current@,
                in_word,
                words@.map_values(|w: String| encode_utf8(w@)),
                true,
            ),
        decreases s@.len() - i,
    {
        let ghost prev_words = words@.map_values(|w: String| encode_utf8(w@));
        let ghost prev_cur = current@;
        let c = s[i];
        match state {
            ScanState::Normal => {
                if c == ' ' || c == '\t' || c == '\n' || c == '\r' {
                    i += 1;
                    if in_word {
                        match bytes_to_string(current) {
                            Some(w) => {
                                words.push(w);
                                current = Vec::new();
                                in_word = false;
                                proof {
                                    vstd::utf8::decode_utf8_encode_utf8(prev_cur);
                                    assert(words@.map_values(|w: String| encode_utf8(w@))
                                        =~= prev_words.push(prev_cur));
                                }
                            },
                            None => {
                                return Err(ShellParseError::InvalidUtf8);
                            },
                        }
                    }
                } else if c == '\'' {
                    i += 1;
                    in_word = true;
                    state = ScanState::SingleQuoted;
                } else if c == '"' {
                    i += 1;
                    in_word = true;
                    match parse::shell_parse_arg_inner(&s, &mut i, &mut current) {
                        Ok(true) => {
                            proof {
                                assert(current@ =~= prev_cur + current@.skip(
                                    prev_cur.len() as int,
                                ));
                            }
                        },
                        Ok(false) => {
                            return Err(ShellParseError::UnmatchedDoubleQuote);
                        },
                        Err(e) => {
                            return Err(e);
                        },
                    }
                } else if c == '\\' {
                    i += 1;
                    in_word = true;
                    match parse::parse_backslash_escape(&s, &mut i, &mut current, false) {
                        Ok(_) => {
                            proof {
                                assert(current@ =~= prev_cur + current@.skip(
                                    prev_cur.len() as int,
                                ));
                            }
                        },
                        Err(e) => {
                            return Err(e);
                        },
                    }
                } else if c == '#' && !in_word {
                    // comment: consume the rest of the input
                    return Ok(words);
                } else {
                    i += 1;
                    in_word = true;
                    parse::push_char(&mut current, c);
                }
            },
            ScanState::SingleQuoted => {
                i += 1;
                if c == '\'' {
                    state = ScanState::Normal;
                } else {
                    parse::push_char(&mut current, c);
                }
            },
        }
    }

    match state {
        ScanState::SingleQuoted => Err(ShellParseError::UnmatchedSingleQuote),
        ScanState::Normal => {
            if in_word {
                let ghost prev_words = words@.map_values(|w: String| encode_utf8(w@));
                let ghost prev_cur = current@;
                match bytes_to_string(current) {
                    Some(w) => {
                        words.push(w);
                        proof {
                            vstd::utf8::decode_utf8_encode_utf8(prev_cur);
                            assert(words@.map_values(|w: String| encode_utf8(w@))
                                =~= prev_words.push(prev_cur));
                        }
                        Ok(words)
                    },
                    None => Err(ShellParseError::InvalidUtf8),
                }
            } else {
                Ok(words)
            }
        },
    }
}

} // verus!
