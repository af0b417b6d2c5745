//! Mathematical model of the tokenizer.
//!
//! The spec functions here define, over a `Seq<char>`, exactly which words
//! and errors every scan of a line produces.  The executable scanners in
//! [`crate::parse`] and at the crate root are proved to return precisely
//! what these functions describe.  Word contents are byte sequences; the
//! bytes contributed by ordinary characters are their UTF-8 encoding,
//! taken from `vstd::utf8`.

use vstd::prelude::*;
use vstd::utf8::{encode_scalar, is_scalar};
use crate::ShellParseError;

verus! {

/// Bytes of the UTF-8 encoding of one character.
pub open spec fn char_utf8(c: char) -> Seq<u8> {
    encode_scalar(c as u32)
}

/// Characters that separate words: space, tab, line feed, carriage return.
pub open spec fn is_space(c: char) -> bool {
    c == ' ' || c == '\t' || c == '\n' || c == '\r'
}

/// Octal digits `0` through `7`.
pub open spec fn is_octal(c: char) -> bool {
    '0' <= c && c <= '7'
}

/// Numeric value of a decimal digit character.
pub open spec fn digit_val(c: char) -> int {
    c as int - '0' as int
}

/// Numeric value of an ASCII hex digit, or `None` for any other character.
pub open spec fn hex_val(c: char) -> Option<u8> {
    if '0' <= c && c <= '9' {
        Some((c as int - '0' as int) as u8)
    } else if 'a' <= c && c <= 'f' {
        Some((c as int - 'a' as int + 10) as u8)
    } else if 'A' <= c && c <= 'F' {
        Some((c as int - 'A' as int + 10) as u8)
    } else {
        None
    }
}

/// The single output byte of a one-character escape, or `None` when the
/// character does not name one.  Covers the control escapes
/// (`a b e E f n r t v`) and the literal ones (`\ ' " $ `` ` `` and space).
pub open spec fn simple_escape(c: char) -> Option<u8> {
    if c == 'a' {
        Some(0x07u8)
    } else if c == 'b' {
        Some(0x08u8)
    } else if c == 'e' || c == 'E' {
        Some(0x1bu8)
    } else if c == 'f' {
        Some(0x0cu8)
    } else if c == 'n' {
        Some(0x0au8)
    } else if c == 'r' {
        Some(0x0du8)
    } else if c == 't' {
        Some(0x09u8)
    } else if c == 'v' {
        Some(0x0bu8)
    } else if c == '\\' || c == '\'' || c == '"' || c == '$' || c == '`' || c == ' ' {
        Some((c as int) as u8)
    } else {
        None
    }
}

/// Walk up to `left` more octal digits starting at `i`, extending the value
/// accumulated so far, and stop before any digit that would push the value
/// past 255.  Returns the index after the last digit taken and the value.
pub open spec fn scan_octal(s: Seq<char>, i: int, val: int, left: int) -> (int, int)
    decreases left,
{
    if left <= 0 {
        (i, val)
    } else if i < s.len() && is_octal(s[i]) && val * 8 + digit_val(s[i]) <= 255 {
        scan_octal(s, i + 1, val * 8 + digit_val(s[i]), left - 1)
    } else {
        (i, val)
    }
}

/// Walk up to `left` more hex digits starting at `i`, extending the value
/// accumulated so far.  Returns the index after the last digit taken and
/// the value.
pub open spec fn scan_hex(s: Seq<char>, i: int, val: int, left: int) -> (int, int)
    decreases left,
{
    if left <= 0 {
        (i, val)
    } else if i < s.len() {
        match hex_val(s[i]) {
            Some(h) => scan_hex(s, i + 1, val * 16 + h, left - 1),
            None => (i, val),
        }
    } else {
        (i, val)
    }
}

/// Consume the digits and closing brace of a `\u{...}` escape, starting
/// just after the opening brace.  Fails when the input ends before `}`,
/// when a non-hex-digit appears, when no digit appears, or when a seventh
/// digit appears.  Returns the index after `}` and the accumulated value.
pub open spec fn scan_unicode_digits(s: Seq<char>, i: int, val: int, count: int) -> Result<
    (int, int),
    ShellParseError,
>
    decreases s.len() - i,
{
    if i < 0 || i >= s.len() {
        Err(ShellParseError::InvalidUnicodeEscape)
    } else if s[i] == '}' {
        if count == 0 {
            Err(ShellParseError::InvalidUnicodeEscape)
        } else {
            Ok((i + 1, val))
        }
    } else {
        match hex_val(s[i]) {
            None => Err(ShellParseError::InvalidUnicodeEscape),
            Some(h) => if count + 1 > 6 {
                Err(ShellParseError::InvalidUnicodeEscape)
            } else {
                scan_unicode_digits(s, i + 1, val * 16 + h, count + 1)
            },
        }
    }
}

/// Decode a `\u{...}` escape, with `i` just after the `u`.  Requires a
/// literal `{`, one to six hex digits and a closing `}`; the value must be
/// a Unicode scalar, which is then emitted as its UTF-8 bytes.
pub open spec fn scan_unicode(s: Seq<char>, i: int) -> Result<(int, Seq<u8>), ShellParseError> {
    if 0 <= i < s.len() && s[i] == '{' {
        match scan_unicode_digits(s, i + 1, 0, 0) {
            Err(e) => Err(e),
            Ok((j, v)) => if is_scalar(v as u32) {
                Ok((j, encode_scalar(v as u32)))
            } else {
                Err(ShellParseError::InvalidUnicodeCodePoint(v as u32))
            },
        }
    } else {
        Err(ShellParseError::InvalidUnicodeEscape)
    }
}

/// Decode one backslash escape, with `i` on the character right after the
/// backslash.  Returns the index after the escape and the bytes it emits.
/// `quoted` selects the double-quoted fallback (an unknown `\X` stays as
/// the two characters `\X`) over the unquoted one (the backslash is
/// dropped and `X` is kept).
pub open spec fn scan_escape(s: Seq<char>, i: int, quoted: bool) -> Result<
    (int, Seq<u8>),
    ShellParseError,
> {
    if i < 0 || i >= s.len() {
        Err(ShellParseError::TrailingBackslash)
    } else {
        let c = s[i];
        match simple_escape(c) {
            Some(b) => Ok((i + 1, seq![b])),
            None => if c == '\n' {
                // line continuation: both characters vanish
                Ok((i + 1, Seq::empty()))
            } else if c == '0' {
                let (j, v) = scan_octal(s, i + 1, 0, 3);
                Ok((j, seq![v as u8]))
            } else if c == 'x' {
                let (j, v) = scan_hex(s, i + 1, 0, 2);
                if j == i + 1 {
                    Err(ShellParseError::InvalidHexEscape)
                } else {
                    Ok((j, seq![v as u8]))
                }
            } else if c == 'u' {
                scan_unicode(s, i + 1)
            } else if quoted {
                Ok((i + 1, seq![0x5cu8] + char_utf8(c)))
            } else {
                Ok((i + 1, char_utf8(c)))
            },
        }
    }
}

/// An index taken by `scan_octal` never moves backwards nor past the end.
pub proof fn lemma_scan_octal_bounds(s: Seq<char>, i: int, val: int, left: int)
    requires
        i <= s.len(),
    ensures
        i <= scan_octal(s, i, val, left).0 <= s.len(),
    decreases left,
{
    if left > 0 && i < s.len() && is_octal(s[i]) && val * 8 + digit_val(s[i]) <= 255 {
        lemma_scan_octal_bounds(s, i + 1, val * 8 + digit_val(s[i]), left - 1);
    }
}

/// An index taken by `scan_hex` never moves backwards nor past the end.
pub proof fn lemma_scan_hex_bounds(s: Seq<char>, i: int, val: int, left: int)
    requires
        i <= s.len(),
    ensures
        i <= scan_hex(s, i, val, left).0 <= s.len(),
    decreases left,
{
    if left > 0 && i < s.len() && hex_val(s[i]) is Some {
        lemma_scan_hex_bounds(s, i + 1, val * 16 + hex_val(s[i])->0 as int, left - 1);
    }
}

/// A successful `scan_unicode_digits` advances and stays in bounds.
pub proof fn lemma_scan_unicode_digits_bounds(s: Seq<char>, i: int, val: int, count: int)
    ensures
        scan_unicode_digits(s, i, val, count) matches Ok(r) ==> i < r.0 <= s.len(),
    decreases s.len() - i,
{
    if 0 <= i < s.len() && s[i] != '}' {
        match hex_val(s[i]) {
            None => {},
            Some(h) => {
                if count + 1 <= 6 {
                    lemma_scan_unicode_digits_bounds(s, i + 1, val * 16 + h, count + 1);
                }
            },
        }
    }
}

/// A successful escape scan consumes at least the character after the
/// backslash and never reads past the end of the input.
pub proof fn lemma_scan_escape_bounds(s: Seq<char>, i: int, quoted: bool)
    ensures
        scan_escape(s, i, quoted) matches Ok(r) ==> i < r.0 <= s.len(),
{
    if 0 <= i < s.len() {
        let c = s[i];
        if simple_escape(c) is None {
            if c == '0' {
                lemma_scan_octal_bounds(s, i + 1, 0, 3);
            } else if c == 'x' {
                lemma_scan_hex_bounds(s, i + 1, 0, 2);
            } else if c == 'u' {
                lemma_scan_unicode_digits_bounds(s, i + 2, 0, 0);
            }
        }
    }
}

/// Scan the inside of a double-quoted region, with `i` on the first
/// character after the opening quote.  Ends at an unescaped `"`; reaching
/// the end of input first is an unmatched-double-quote error.  Backslash
/// escapes use double-quoted semantics; every other character, including
/// `'`, is kept verbatim.
pub open spec fn scan_dquoted(s: Seq<char>, i: int) -> Result<(int, Seq<u8>), ShellParseError>
    decreases s.len() - i,
    via scan_dquoted_dec
{
    if i < 0 || i >= s.len() {
        Err(ShellParseError::UnmatchedDoubleQuote)
    } else if s[i] == '"' {
        Ok((i + 1, Seq::empty()))
    } else if s[i] == '\\' {
        match scan_escape(s, i + 1, true) {
            Err(e) => Err(e),
            Ok((j, bs)) => match scan_dquoted(s, j) {
                Err(e) => Err(e),
                Ok((k, rest)) => Ok((k, bs + rest)),
            },
        }
    } else {
        match scan_dquoted(s, i + 1) {
            Err(e) => Err(e),
            Ok((k, rest)) => Ok((k, char_utf8(s[i]) + rest)),
        }
    }
}

#[via_fn]
proof fn scan_dquoted_dec(s: Seq<char>, i: int) {
    lemma_scan_escape_bounds(s, i + 1, true);
}

/// Decode a whole argument string using double-quote escape semantics,
/// with no splitting: `"` is an ordinary character and the input runs to
/// its end.  Returns the decoded bytes.
pub open spec fn scan_arg(s: Seq<char>, i: int) -> Result<Seq<u8>, ShellParseError>
    decreases s.len() - i,
    via scan_arg_dec
{
    if i < 0 || i >= s.len() {
        Ok(Seq::empty())
    } else if s[i] == '\\' {
        match scan_escape(s, i + 1, true) {
            Err(e) => Err(e),
            Ok((j, bs)) => match scan_arg(s, j) {
                Err(e) => Err(e),
                Ok(rest) => Ok(bs + rest),
            },
        }
    } else {
        match scan_arg(s, i + 1) {
            Err(e) => Err(e),
            Ok(rest) => Ok(char_utf8(s[i]) + rest),
        }
    }
}

#[via_fn]
proof fn scan_arg_dec(s: Seq<char>, i: int) {
    lemma_scan_escape_bounds(s, i + 1, true);
}

/// Quoting state of the line scanner outside any double-quoted region.
pub enum ScanState {
    Normal,
    SingleQuoted,
}

/// One left-to-right scan of a line, from position `i` in state `st`, with
/// `cur` the bytes of the word in progress, `in_word` whether a word is in
/// progress at all (an empty quoted string still makes a word), and `acc`
/// the words already emitted.  When `text` is set, each word is checked to
/// be valid UTF-8 as it is flushed, as the text-producing scanner does.
pub open spec fn scan_line(
    s: Seq<char>,
    i: int,
    st: ScanState,
    cur: Seq<u8>,
    in_word: bool,
    acc: Seq<Seq<u8>>,
    text: bool,
) -> Result<Seq<Seq<u8>>, ShellParseError>
    decreases s.len() - i,
    via scan_line_dec
{
    if i < 0 || i >= s.len() {
        match st {
            ScanState::SingleQuoted => Err(ShellParseError::UnmatchedSingleQuote),
            ScanState::Normal => if in_word {
                if text && !vstd::utf8::valid_utf8(cur) {
                    Err(ShellParseError::InvalidUtf8)
                } else {
                    Ok(acc.push(cur))
                }
            } else {
                Ok(acc)
            },
        }
    } else {
        let c = s[i];
        match st {
            ScanState::Normal => if is_space(c) {
                if in_word {
                    if text && !vstd::utf8::valid_utf8(cur) {
                        Err(ShellParseError::InvalidUtf8)
                    } else {
                        scan_line(s, i + 1, st, Seq::empty(), false, acc.push(cur), text)
                    }
                } else {
                    scan_line(s, i + 1, st, cur, in_word, acc, text)
                }
            } else if c == '\'' {
                scan_line(s, i + 1, ScanState::SingleQuoted, cur, true, acc, text)
            } else if c == '"' {
                match scan_dquoted(s, i + 1) {
                    Err(e) => Err(e),
                    Ok((j, bs)) => scan_line(s, j, st, cur + bs, true, acc, text),
                }
            } else if c == '\\' {
                match scan_escape(s, i + 1, false) {
                    Err(e) => Err(e),
                    Ok((j, bs)) => scan_line(s, j, st, cur + bs, true, acc, text),
                }
            } else if c == '#' && !in_word {
                // comment: the rest of the line is discarded
                Ok(acc)
            } else {
                scan_line(s, i + 1, st, cur + char_utf8(c), true, acc, text)
            },
            ScanState::SingleQuoted => if c == '\'' {
                scan_line(s, i + 1, ScanState::Normal, cur, in_word, acc, text)
            } else {
                scan_line(s, i + 1, st, cur + char_utf8(c), in_word, acc, text)
            },
        }
    }
}

#[via_fn]
proof fn scan_line_dec(
    s: Seq<char>,
    i: int,
    st: ScanState,
    cur: Seq<u8>,
    in_word: bool,
    acc: Seq<Seq<u8>>,
    text: bool,
) {
    lemma_scan_dquoted_bounds(s, i + 1);
    lemma_scan_escape_bounds(s, i + 1, false);
}

/// A successful double-quoted scan advances and stays in bounds.
pub proof fn lemma_scan_dquoted_bounds(s: Seq<char>, i: int)
    ensures
        scan_dquoted(s, i) matches Ok(r) ==> i < r.0 <= s.len(),
    decreases s.len() - i,
{
    if 0 <= i < s.len() && s[i] != '"' {
        if s[i] == '\\' {
            lemma_scan_escape_bounds(s, i + 1, true);
            match scan_escape(s, i + 1, true) {
                Err(_) => {},
                Ok((j, _)) => lemma_scan_dquoted_bounds(s, j),
            }
        } else {
            lemma_scan_dquoted_bounds(s, i + 1);
        }
    }
}

/// The words of a whole line, as raw byte sequences.
pub open spec fn line_words(s: Seq<char>) -> Result<Seq<Seq<u8>>, ShellParseError> {
    scan_line(s, 0, ScanState::Normal, Seq::empty(), false, Seq::empty(), false)
}

/// The words of a whole line, with each word checked to be valid UTF-8 as
/// it is flushed.
pub open spec fn line_words_text(s: Seq<char>) -> Result<Seq<Seq<u8>>, ShellParseError> {
    scan_line(s, 0, ScanState::Normal, Seq::empty(), false, Seq::empty(), true)
}

/// The bytes of a whole argument string decoded in double-quote mode.
pub open spec fn arg_bytes(s: Seq<char>) -> Result<Seq<u8>, ShellParseError> {
    scan_arg(s, 0)
}

} // verus!
