//! Executable tokenizer working on raw bytes.
//!
//! The functions here are proved to return exactly what the spec-level
//! scanners in [`crate::model`] describe: [`shell_parse_line_bytes`]
//! realises `line_words`, and [`shell_parse_arg_bytes`] realises
//! `arg_bytes`.

use vstd::prelude::*;
use vstd::utf8::encode_scalar;
use crate::model::{
    char_utf8, hex_val, simple_escape, scan_octal, scan_hex, scan_unicode_digits,
    scan_escape, scan_dquoted, scan_arg, scan_line, arg_bytes, line_words, ScanState,
};

verus! {

pub use crate::ShellParseError;

/// Relies on char::from_u32: `Some` exactly when the value is a Unicode
/// scalar (at most 0x10FFFF and not a surrogate), and the returned
/// character has that value.
pub assume_specification[ char::from_u32 ](v: u32) -> (r: Option<char>)
    ensures
        (match r {
            Some(c) => vstd::utf8::is_scalar(v) && c as u32 == v,
            None => !vstd::utf8::is_scalar(v),
        }),
;

/// The characters of a string, in order, as a vector.
pub(crate) fn str_to_chars(s: &str) -> (r: Vec<char>)
    ensures
        r@ == s@,
{
    let n = s.unicode_len();
    let mut v: Vec<char> = Vec::new();
    let mut i: usize = 0;
    while i < n
        invariant
            i <= n,
            n == s@.len(),
            v@ == s@.take(i as int),
        decreases n - i,
    {
        v.push(s.get_char(i));
        i += 1;
        proof {
            assert(v@ =~= s@.take(i as int));
        }
    }
    proof {
        assert(v@ =~= s@);
    }
    v
}

/// Convert an ASCII hex digit to its numeric value (0-15), or `None` if
/// the character is not a hex digit.
fn hex_digit(c: char) -> (r: Option<u8>)
    ensures
        r == hex_val(c),
{
    if '0' <= c && c <= '9' {
        Some((c as u32 - '0' as u32) as u8)
    } else if 'a' <= c && c <= 'f' {
        Some((c as u32 - 'a' as u32 + 10) as u8)
    } else if 'A' <= c && c <= 'F' {
        Some((c as u32 - 'A' as u32 + 10) as u8)
    } else {
        None
    }
}

/// The byte of a one-character escape, or `None` when `c` names none.
fn simple_escape_byte(c: char) -> (r: Option<u8>)
    ensures
        r == simple_escape(c),
{
    if c == 'a' {
        Some(0x07)
    } else if c == 'b' {
        Some(0x08)
    } else if c == 'e' || c == 'E' {
        Some(0x1B)
    } else if c == 'f' {
        Some(0x0C)
    } else if c == 'n' {
        Some(0x0A)
    } else if c == 'r' {
        Some(0x0D)
    } else if c == 't' {
        Some(0x09)
    } else if c == 'v' {
        Some(0x0B)
    } else if c == '\\' {
        Some(0x5C)
    } else if c == '\'' {
        Some(0x27)
    } else if c == '"' {
        Some(0x22)
    } else if c == '$' {
        Some(0x24)
    } else if c == '`' {
        Some(0x60)
    } else if c == ' ' {
        Some(0x20)
    } else {
        None
    }
}

/// Append the UTF-8 encoding of `c` to a byte buffer.
pub(crate) fn push_char(output: &mut Vec<u8>, c: char)
    ensures
        final(output)@ == old(output)@ + char_utf8(c),
{
    broadcast use vstd::utf8::char_is_scalar;

    let v = c as u32;
    if v < 0x80 {
        output.push((v & 0x7F) as u8);
    } else if v < 0x800 {
        output.push(0xC0 | ((v >> 6) & 0x1F) as u8);
        output.push(0x80 | (v & 0x3F) as u8);
    } else if v < 0x10000 {
        output.push(0xE0 | ((v >> 12) & 0x0F) as u8);
        output.push(0x80 | ((v >> 6) & 0x3F) as u8);
        output.push(0x80 | (v & 0x3F) as u8);
    } else {
        output.push(0xF0 | ((v >> 18) & 0x7) as u8);
        output.push(0x80 | ((v >> 12) & 0x3F) as u8);
        output.push(0x80 | ((v >> 6) & 0x3F) as u8);
        output.push(0x80 | (v & 0x3F) as u8);
    }
    proof {
        assert(output@ =~= old(output)@ + char_utf8(c));
    }
}

/// Parse a backslash escape sequence, consuming characters from `s` at the
/// cursor `i` (positioned right after the backslash) and appending the
/// result to `output`.
///
/// When `in_double_quotes` is true, an unrecognised `\X` is preserved as
/// the two characters `\X` (POSIX double-quote semantics).  When false
/// (unquoted), an unrecognised `\X` produces just `X` (POSIX unquoted
/// semantics).
pub(crate) fn parse_backslash_escape(
    s: &Vec<char>,
    i: &mut usize,
    output: &mut Vec<u8>,
    in_double_quotes: bool,
) -> (r: Result<(), ShellParseError>)
    requires
        *old(i) <= s@.len(),
    ensures
        (match r {
            Ok(_) => {
                &&& *old(i) < *final(i) <= s@.len()
                &&& old(output)@.is_prefix_of(final(output)@)
                &&& scan_escape(s@, *old(i) as int, in_double_quotes) == Ok::<
                    (int, Seq<u8>),
                    ShellParseError,
                >((*final(i) as int, final(output)@.skip(old(output)@.len() as int)))
            },
            Err(e) => scan_escape(s@, *old(i) as int, in_double_quotes) == Err::<
                (int, Seq<u8>),
                ShellParseError,
            >(e),
        }),
{
    let ghost i0 = *i as int;
    let ghost out0 = output@;
    if *i >= s.len() {
        return Err(ShellParseError::TrailingBackslash);
    }
    let next = s[*i];
    *i += 1;

    match simple_escape_byte(next) {
        Some(b) => {
            output.push(b);
            proof {
                assert(output@.skip(out0.len() as int) =~= seq![b]);
                assert(out0.is_prefix_of(output@));
            }
            Ok(())
        },
        None => {
            if next == '\n' {
                // line continuation: discard both backslash and newline
                proof {
                    assert(output@.skip(out0.len() as int) =~= Seq::<u8>::empty());
                    assert(out0.is_prefix_of(output@));
                }
                Ok(())
            } else if next == '0' {
                // octal: up to 3 octal digits after the `0`, capped at 255;
                // a digit that would overflow is left unconsumed
                let ghost p0 = *i as int;
                let mut value: u16 = 0;
                let mut count: u8 = 0;
                while count < 3
                    invariant
                        p0 <= *i as int <= s@.len(),
                        value <= 255,
                        count <= 3,
                        scan_octal(s@, p0, 0, 3) == scan_octal(
                            s@,
                            *i as int,
                            value as int,
                            3 - count as int,
                        ),
                    ensures
                        *i as int <= s@.len(),
                        p0 <= *i as int,
                        value <= 255,
                        scan_octal(s@, p0, 0, 3) == ((*i as int, value as int)),
                    decreases 3 - count as int,
                {
                    if *i == s.len() {
                        break ;
                    }
                    let d = s[*i];
                    if !('0' <= d && d <= '7') {
                        break ;
                    }
                    let dv = (d as u32 - '0' as u32) as u16;
                    let next_value = value * 8 + dv;
                    if next_value > 255 {
                        break ;
                    }
                    value = next_value;
                    *i += 1;
                    count += 1;
                }
                output.push(value as u8);
                proof {
                    assert(output@.skip(out0.len() as int) =~= seq![value as u8]);
                    assert(out0.is_prefix_of(output@));
                }
                Ok(())
            } else if next == 'x' {
                // C-style hex: 1 or 2 hex digits
                let ghost p0 = *i as int;
                let mut value: u32 = 0;
                let mut count: u8 = 0;
                while count < 2
                    invariant
                        p0 <= *i as int <= s@.len(),
                        *i as int == p0 + count as int,
                        count <= 2,
                        count == 0 ==> value == 0,
                        count == 1 ==> value <= 15,
                        count == 2 ==> value <= 255,
                        scan_hex(s@, p0, 0, 2) == scan_hex(
                            s@,
                            *i as int,
                            value as int,
                            2 - count as int,
                        ),
                    ensures
                        *i as int <= s@.len(),
                        *i as int == p0 + count as int,
                        value <= 255,
                        scan_hex(s@, p0, 0, 2) == ((*i as int, value as int)),
                    decreases 2 - count as int,
                {
                    if *i == s.len() {
                        break ;
                    }
                    match hex_digit(s[*i]) {
                        Some(h) => {
                            value = value * 16 + h as u32;
                            *i += 1;
                            count += 1;
                        },
                        None => {
                            break ;
                        },
                    }
                }
                if count == 0 {
                    return Err(ShellParseError::InvalidHexEscape);
                }
                output.push(value as u8);
                proof {
                    assert(output@.skip(out0.len() as int) =~= seq![value as u8]);
                    assert(out0.is_prefix_of(output@));
                }
                Ok(())
            } else if next == 'u' {
                // Rust-style unicode: \u{H..H}, 1 to 6 hex digits
                if *i == s.len() {
                    return Err(ShellParseError::InvalidUnicodeEscape);
                }
                if s[*i] != '{' {
                    return Err(ShellParseError::InvalidUnicodeEscape);
                }
                *i += 1;
                let ghost p0 = *i as int;
                let mut value: u32 = 0;
                let mut count: u8 = 0;
                loop
                    invariant_except_break
                        scan_unicode_digits(s@, p0, 0, 0) == scan_unicode_digits(
                            s@,
                            *i as int,
                            value as int,
                            count as int,
                        ),
                    invariant
                        p0 <= *i as int <= s@.len(),
                        p0 == i0 + 2,
                        i0 + 1 < s@.len(),
                        s@[i0] == 'u',
                        s@[i0 + 1] == '{',
                        i0 == *old(i) as int,
                        output@ == out0,
                        out0 == old(output)@,
                        count <= 6,
                        count == 0 ==> value == 0,
                        count == 1 ==> value < 0x10,
                        count == 2 ==> value < 0x100,
                        count == 3 ==> value < 0x1000,
                        count == 4 ==> value < 0x10000,
                        count == 5 ==> value < 0x100000,
                        count == 6 ==> value < 0x1000000,
                    ensures
                        *i as int <= s@.len(),
                        count != 0,
                        value < 0x1000000,
                        scan_unicode_digits(s@, p0, 0, 0) == Ok::<(int, int), ShellParseError>(
                            ((*i as int, value as int)),
                        ),
                        output@ == out0,
                    decreases s@.len() - *i as int,
                {
                    if *i == s.len() {
                        return Err(ShellParseError::InvalidUnicodeEscape);
                    }
                    let ghost qi = *i as int;
                    let d = s[*i];
                    *i += 1;
                    if d == '}' {
                        if count == 0 {
                            return Err(ShellParseError::InvalidUnicodeEscape);
                        }
                        proof {
                            assert(scan_unicode_digits(s@, qi, value as int, count as int)
                                == Ok::<(int, int), ShellParseError>(((*i as int, value as int))));
                        }
                        break ;
                    }
                    match hex_digit(d) {
                        Some(h) => {
                            if count >= 6 {
                                return Err(ShellParseError::InvalidUnicodeEscape);
                            }
                            value = value * 16 + h as u32;
                            count += 1;
                        },
                        None => {
                            return Err(ShellParseError::InvalidUnicodeEscape);
                        },
                    }
                }
                match char::from_u32(value) {
                    Some(ch) => {
                        push_char(output, ch);
                        proof {
                            assert(output@.skip(out0.len() as int) =~= char_utf8(ch));
                            assert(out0.is_prefix_of(output@));
                            assert(char_utf8(ch) == encode_scalar(value));
                        }
                        Ok(())
                    },
                    None => Err(ShellParseError::InvalidUnicodeCodePoint(value)),
                }
            } else {
                // fallback: POSIX keeps the backslash inside double quotes
                // and drops it in unquoted context
                if in_double_quotes {
                    output.push(0x5C);
                }
                push_char(output, next);
                proof {
                    if in_double_quotes {
                        assert(output@.skip(out0.len() as int) =~= seq![0x5cu8] + char_utf8(next));
                    } else {
                        assert(output@.skip(out0.len() as int) =~= char_utf8(next));
                    }
                    assert(out0.is_prefix_of(output@));
                }
                Ok(())
            }
        },
    }
}

/// Inner double-quote parser that operates on the character cursor.
///
/// Appends parsed content to `output`.  Returns `true` if terminated by a
/// closing `"`, or `false` if the input was exhausted.
pub(crate) fn shell_parse_arg_inner(s: &Vec<char>, i: &mut usize, output: &mut Vec<u8>) -> (r:
    Result<bool, ShellParseError>)
    requires
        *old(i) <= s@.len(),
    ensures
        (match r {
            Ok(true) => {
                &&& *old(i) < *final(i) <= s@.len()
                &&& old(output)@.is_prefix_of(final(output)@)
                &&& scan_dquoted(s@, *old(i) as int) == Ok::<(int, Seq<u8>), ShellParseError>((
                    *final(i) as int,
                    final(output)@.skip(old(output)@.len() as int),
                ))
            },
            Ok(false) => scan_dquoted(s@, *old(i) as int) == Err::<(int, Seq<u8>), ShellParseError>(
                ShellParseError::UnmatchedDoubleQuote,
            ),
            Err(e) => scan_dquoted(s@, *old(i) as int) == Err::<(int, Seq<u8>), ShellParseError>(e),
        }),
{
    let ghost i0 = *i as int;
    let ghost out0 = output@;
    let mut closed = false;
    loop
        invariant_except_break
            !closed,
            (match scan_dquoted(s@, *i as int) {
                Ok((k, rest)) => scan_dquoted(s@, i0) == Ok::<(int, Seq<u8>), ShellParseError>((
                    k,
                    output@.skip(out0.len() as int) + rest,
                )),
                Err(e) => scan_dquoted(s@, i0) == Err::<(int, Seq<u8>), ShellParseError>(e),
            }),
        invariant
            i0 <= *i as int <= s@.len(),
            i0 == *old(i) as int,
            out0 == old(output)@,
            out0.is_prefix_of(output@),
        ensures
            closed ==> i0 < *i as int && scan_dquoted(s@, i0) == Ok::<
                (int, Seq<u8>),
                ShellParseError,
            >((*i as int, output@.skip(out0.len() as int))),
            !closed ==> scan_dquoted(s@, i0) == Err::<(int, Seq<u8>), ShellParseError>(
                ShellParseError::UnmatchedDoubleQuote,
            ),
        decreases s@.len() - *i as int,
    {
        if *i == s.len() {
            break ;
        }
        let ghost qi = *i as int;
        let ghost prev = output@;
        let c = s[*i];
        *i += 1;
        if c == '"' {
            proof {
                assert(scan_dquoted(s@, qi) == Ok::<(int, Seq<u8>), ShellParseError>((
                    qi + 1,
                    Seq::<u8>::empty(),
                )));
                assert(output@.skip(out0.len() as int) + Seq::<u8>::empty() =~= output@.skip(
                    out0.len() as int,
                ));
            }
            closed = true;
            break ;
        }
        if c == '\\' {
            match parse_backslash_escape(s, i, output, true) {
                Ok(_) => {
                    proof {
                        let bs = output@.skip(prev.len() as int);
                        assert(output@.skip(out0.len() as int) =~= prev.skip(out0.len() as int)
                            + bs);
                        match scan_dquoted(s@, *i as int) {
                            Ok((k, rest)) => {
                                assert((prev.skip(out0.len() as int) + bs) + rest =~= prev.skip(
                                    out0.len() as int,
                                ) + (bs + rest));
                            },
                            Err(_) => {},
                        }
                        assert(out0.is_prefix_of(output@));
                    }
                },
                Err(e) => {
                    return Err(e);
                },
            }
        } else {
            push_char(output, c);
            proof {
                let bs = char_utf8(c);
                assert(output@.skip(out0.len() as int) =~= prev.skip(out0.len() as int) + bs);
                match scan_dquoted(s@, *i as int) {
                    Ok((k, rest)) => {
                        assert((prev.skip(out0.len() as int) + bs) + rest =~= prev.skip(
                            out0.len() as int,
                        ) + (bs + rest));
                    },
                    Err(_) => {},
                }
                assert(out0.is_prefix_of(output@));
            }
        }
    }
    if closed {
        Ok(true)
    } else {
        Ok(false)
    }
}

/// Parse a single string using double-quote escape rules, returning raw
/// bytes.
///
/// Processes backslash escape sequences in `input` and returns the raw
/// bytes, which may hold non-UTF-8 values such as `\xFF`.  Unlike
/// [`shell_parse_line_bytes`], double quotes are **not** treated as
/// delimiters: the entire input is consumed and `"` characters are kept
/// literally.  Unknown `\X` sequences are preserved as `\X` (double-quote
/// semantics).
pub fn shell_parse_arg_bytes(input: &str) -> (r: Result<Vec<u8>, ShellParseError>)
    ensures
        (match r {
            Ok(b) => arg_bytes(input@) == Ok::<Seq<u8>, ShellParseError>(b@),
            Err(e) => arg_bytes(input@) == Err::<Seq<u8>, ShellParseError>(e),
        }),
{
    let s = str_to_chars(input);
    let mut output: Vec<u8> = Vec::new();
    let mut i: usize = 0;
    while i < s.len()
        invariant
            i <= s@.len(),
            s@ == input@,
            (match scan_arg(s@, i as int) {
                Ok(rest) => arg_bytes(input@) == Ok::<Seq<u8>, ShellParseError>(output@ + rest),
                Err(e) => arg_bytes(input@) == Err::<Seq<u8>, ShellParseError>(e),
            }),
        decreases s@.len() - i,
    {
        let ghost prev = output@;
        let c = s[i];
        if c == '\\' {
            i += 1;
            match parse_backslash_escape(&s, &mut i, &mut output, true) {
                Ok(_) => {
                    proof {
                        let bs = output@.skip(prev.len() as int);
                        assert(output@ =~= prev + bs);
                        match scan_arg(s@, i as int) {
                            Ok(rest) => {
                                assert((prev + bs) + rest =~= prev + (bs + rest));
                            },
                            Err(_) => {},
                        }
                    }
                },
                Err(e) => {
                    return Err(e);
                },
            }
        } else {
            push_char(&mut output, c);
            i += 1;
            proof {
                match scan_arg(s@, i as int) {
                    Ok(rest) => {
                        assert((prev + char_utf8(c)) + rest =~= prev + (char_utf8(c) + rest));
                    },
                    Err(_) => {},
                }
            }
        }
    }
    proof {
        assert(output@ + Seq::<u8>::empty() =~= output@);
    }
    Ok(output)
}

/// Split a string into words using POSIX shell-like parsing rules,
/// returning raw byte vectors.
///
/// Each word is returned as a `Vec<u8>` that may contain non-UTF-8 bytes
/// (e.g. from `\xFF` escapes).
///
/// ## Parsing rules
///
/// - **Unquoted words** split on whitespace
/// - **Single quotes** (`'...'`): everything inside is literal, no escape
///   processing
/// - **Double quotes** (`"..."`): allows escape sequences; unknown `\X` is
///   kept as `\X`
/// - **Backslash escapes** (in unquoted and double-quoted contexts):
///   - `\\`, `\'`, `\"`, `\$`, `` \` ``, `\ ` (literal versions)
///   - `\a` (bell), `\b` (backspace), `\e`/`\E` (escape 0x1B), `\f` (form
///     feed), `\n` (newline), `\r` (carriage return), `\t` (tab), `\v`
///     (vertical tab)
///   - `\0[ooo]` — octal (up to 3 octal digits after the `0`, capped at 255)
///   - `\x[HH]` — C-style hex byte (1-2 hex digits)
///   - `\u{H..H}` — Rust-style unicode scalar (1-6 hex digits inside braces)
/// - **`\` + newline** is a line continuation (both characters are
///   discarded)
/// - **`#` comments** — an unquoted `#` at word start consumes the rest of
///   the line
pub fn shell_parse_line_bytes(input: &str) -> (r: Result<Vec<Vec<u8>>, ShellParseError>)
    ensures
        (match r {
            Ok(words) => line_words(input@) == Ok::<Seq<Seq<u8>>, ShellParseError>(
                words@.map_values(|w: Vec<u8>| w@),
            ),
            Err(e) => line_words(input@) == Err::<Seq<Seq<u8>>, ShellParseError>(e),
        }),
{
    let s = str_to_chars(input);
    let mut words: Vec<Vec<u8>> = Vec::new();
    let mut current: Vec<u8> = Vec::new();
    let mut in_word = false;
    let mut state = ScanState::Normal;
    let mut i: usize = 0;
    proof {
        assert(words@.map_values(|w: Vec<u8>| w@) =~= Seq::<Seq<u8>>::empty());
    }

    while i < s.len()
        invariant
            i <= s@.len(),
            s@ == input@,
            line_words(input@) == scan_line(
                s@,
                i as int,
                state,
                current@,
                in_word,
                words@.map_values(|w: Vec<u8>| w@),
                false,
            ),
        decreases s@.len() - i,
    {
        let ghost prev_words = words@.map_values(|w: Vec<u8>| w@);
        let ghost prev_cur = current@;
        let c = s[i];
        match state {
            ScanState::Normal => {
                if c == ' ' || c == '\t' || c == '\n' || c == '\r' {
                    i += 1;
                    if in_word {
                        words.push(current);
                        current = Vec::new();
                        in_word = false;
                        proof {
                            assert(words@.map_values(|w: Vec<u8>| w@) =~= prev_words.push(
                                prev_cur,
                            ));
                        }
                    }
                } else if c == '\'' {
                    i += 1;
                    in_word = true;
                    state = ScanState::SingleQuoted;
                } else if c == '"' {
                    i += 1;
                    in_word = true;
                    match shell_parse_arg_inner(&s, &mut i, &mut current) {
                        Ok(true) => {
                            proof {
                                assert(current@ =~= prev_cur + current@.skip(
                                    prev_cur.len() as int,
                                ));
                            }
                        },
                        Ok(false) => {
                            return Err(ShellParseError::UnmatchedDoubleQuote);
                        },
                        Err(e) => {
                            return Err(e);
                        },
                    }
                } else if c == '\\' {
                    i += 1;
                    in_word = true;
                    match parse_backslash_escape(&s, &mut i, &mut current, false) {
                        Ok(_) => {
                            proof {
                                assert(current@ =~= prev_cur + current@.skip(
                                    prev_cur.len() as int,
                                ));
                            }
                        },
                        Err(e) => {
                            return Err(e);
                        },
                    }
                } else if c == '#' && !in_word {
                    // comment: consume the rest of the input
                    return Ok(words);
                } else {
                    i += 1;
                    in_word = true;
                    push_char(&mut current, c);
                }
            },
            ScanState::SingleQuoted => {
                i += 1;
                if c == '\'' {
                    state = ScanState::Normal;
                } else {
                    push_char(&mut current, c);
                }
            },
        }
    }

    match state {
        ScanState::SingleQuoted => Err(ShellParseError::UnmatchedSingleQuote),
        ScanState::Normal => {
            if in_word {
                let ghost prev_words = words@.map_values(|w: Vec<u8>| w@);
                let ghost prev_cur = current@;
                words.push(current);
                proof {
                    assert(words@.map_values(|w: Vec<u8>| w@) =~= prev_words.push(prev_cur));
                }
            }
            Ok(words)
        },
    }
}

} // verus!
