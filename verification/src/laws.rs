//! General laws of the tokenizer, proved over the model.
//!
//! Each public proof function here states one property of the scanners
//! defined in [`crate::model`], for every input its `requires` admits.

use vstd::prelude::*;
use vstd::utf8::{encode_utf8, valid_utf8};
use crate::model::{
    char_utf8, is_space, simple_escape, scan_escape, scan_dquoted, scan_arg, scan_line,
    arg_bytes, line_words, line_words_text, lemma_scan_dquoted_bounds, lemma_scan_escape_bounds,
    ScanState,
};
use crate::ShellParseError;

verus! {

/// Whitespace seen outside a word changes nothing: the scan at `i` equals
/// the scan at `j` when every character in between is whitespace.
proof fn lemma_scan_ws_run(
    s: Seq<char>,
    i: int,
    j: int,
    cur: Seq<u8>,
    acc: Seq<Seq<u8>>,
    text: bool,
)
    requires
        0 <= i <= j <= s.len(),
        forall|k: int| i <= k < j ==> is_space(s[k]),
    ensures
        scan_line(s, i, ScanState::Normal, cur, false, acc, text) == scan_line(
            s,
            j,
            ScanState::Normal,
            cur,
            false,
            acc,
            text,
        ),
    decreases j - i,
{
    if i < j {
        assert(is_space(s[i]));
        lemma_scan_ws_run(s, i + 1, j, cur, acc, text);
    }
}

/// For all inputs consisting only of whitespace, tokenizing returns an
/// empty word list and no error, in both the byte-producing and the
/// text-producing flavour.
pub proof fn lemma_whitespace_only_no_words(s: Seq<char>)
    requires
        forall|k: int| 0 <= k < s.len() ==> is_space(s[k]),
    ensures
        line_words(s) == Ok::<Seq<Seq<u8>>, ShellParseError>(Seq::empty()),
        line_words_text(s) == Ok::<Seq<Seq<u8>>, ShellParseError>(Seq::empty()),
{
    lemma_scan_ws_run(s, 0, s.len() as int, Seq::empty(), Seq::empty(), false);
    lemma_scan_ws_run(s, 0, s.len() as int, Seq::empty(), Seq::empty(), true);
}

/// A `#` that stands at the start of a word boundary — here, with nothing
/// but whitespace before it — discards the whole rest of the line: no
/// words are produced, whatever follows the `#`.
pub proof fn lemma_comment_after_whitespace_discards_rest(p: Seq<char>, rest: Seq<char>)
    requires
        forall|k: int| 0 <= k < p.len() ==> is_space(p[k]),
    ensures
        line_words(p + seq!['#'] + rest) == Ok::<Seq<Seq<u8>>, ShellParseError>(Seq::empty()),
        line_words_text(p + seq!['#'] + rest) == Ok::<Seq<Seq<u8>>, ShellParseError>(Seq::empty()),
{
    let s = p + seq!['#'] + rest;
    assert(forall|k: int| 0 <= k < p.len() ==> s[k] == p[k]);
    assert(s[p.len() as int] == '#');
    lemma_scan_ws_run(s, 0, p.len() as int, Seq::empty(), Seq::empty(), false);
    lemma_scan_ws_run(s, 0, p.len() as int, Seq::empty(), Seq::empty(), true);
}

/// A `#` that follows a completed word and its separating whitespace
/// truncates the rest of the line: only the word before it is returned,
/// whatever follows the `#`.
pub proof fn lemma_comment_after_word_discards_rest(u: Seq<char>, rest: Seq<char>)
    requires
        u.len() > 0,
        u[0] != '#',
        forall|k: int|
            0 <= k < u.len() ==> !is_space(u[k]) && u[k] != '\\' && u[k] != '\'' && u[k] != '"',
    ensures
        line_words(u + seq![' ', '#'] + rest) == Ok::<Seq<Seq<u8>>, ShellParseError>(
            seq![encode_utf8(u)],
        ),
        line_words_text(u + seq![' ', '#'] + rest) == Ok::<Seq<Seq<u8>>, ShellParseError>(
            seq![encode_utf8(u)],
        ),
{
    let s = u + seq![' ', '#'] + rest;
    let ul = u.len() as int;
    assert(forall|k: int| 0 <= k < ul ==> s[k] == u[k]);
    assert(s[ul] == ' ');
    assert(s[ul + 1] == '#');
    assert(s.subrange(1, ul) =~= u.drop_first());
    assert(u.drop_first() =~= u.skip(1));
    assert(encode_utf8(u) == char_utf8(u[0]) + encode_utf8(u.drop_first()));
    vstd::utf8::encode_utf8_valid_utf8(u);

    assert forall|text: bool|
        scan_line(s, 0, ScanState::Normal, Seq::empty(), false, Seq::empty(), text) == Ok::<
            Seq<Seq<u8>>,
            ShellParseError,
        >(seq![encode_utf8(u)]) by {
        assert(scan_line(s, 0, ScanState::Normal, Seq::empty(), false, Seq::empty(), text)
            == scan_line(
            s,
            1,
            ScanState::Normal,
            Seq::<u8>::empty() + char_utf8(s[0]),
            true,
            Seq::empty(),
            text,
        ));
        assert(Seq::<u8>::empty() + char_utf8(s[0]) =~= char_utf8(u[0]));
        lemma_scan_plain_segment(s, 1, ul, char_utf8(u[0]), Seq::empty(), text);
        assert(char_utf8(u[0]) + encode_utf8(s.subrange(1, ul)) =~= encode_utf8(u));
        // the space flushes the word; the `#` then ends the scan
        assert(scan_line(s, ul, ScanState::Normal, encode_utf8(u), true, Seq::empty(), text)
            == scan_line(
            s,
            ul + 1,
            ScanState::Normal,
            Seq::empty(),
            false,
            Seq::<Seq<u8>>::empty().push(encode_utf8(u)),
            text,
        ));
        assert(scan_line(
            s,
            ul + 1,
            ScanState::Normal,
            Seq::empty(),
            false,
            Seq::<Seq<u8>>::empty().push(encode_utf8(u)),
            text,
        ) == Ok::<Seq<Seq<u8>>, ShellParseError>(Seq::<Seq<u8>>::empty().push(encode_utf8(u))));
        assert(Seq::<Seq<u8>>::empty().push(encode_utf8(u)) =~= seq![encode_utf8(u)]);
    }
}

/// Unfolding step for the UTF-8 encoding of a character run: encoding
/// everything from `i` on is the first character's bytes followed by the
/// encoding of the rest.
proof fn lemma_encode_skip_step(s: Seq<char>, i: int)
    requires
        0 <= i < s.len(),
    ensures
        encode_utf8(s.skip(i)) == char_utf8(s[i]) + encode_utf8(s.skip(i + 1)),
{
    let t = s.skip(i);
    assert(t.len() > 0);
    assert(t[0] == s[i]);
    assert(t.drop_first() =~= s.skip(i + 1));
}

/// Inside a word made only of plain characters (no whitespace, no quotes,
/// no backslash), the scan flushes one word holding the UTF-8 encoding of
/// the rest of the input appended to the bytes already gathered.
proof fn lemma_scan_plain_run(s: Seq<char>, i: int, cur: Seq<u8>, acc: Seq<Seq<u8>>, text: bool)
    requires
        0 <= i <= s.len(),
        forall|k: int|
            i <= k < s.len() ==> !is_space(s[k]) && s[k] != '\\' && s[k] != '\'' && s[k] != '"',
    ensures
        scan_line(s, i, ScanState::Normal, cur, true, acc, text) == (if text && !valid_utf8(
            cur + encode_utf8(s.skip(i)),
        ) {
            Err::<Seq<Seq<u8>>, ShellParseError>(ShellParseError::InvalidUtf8)
        } else {
            Ok::<Seq<Seq<u8>>, ShellParseError>(acc.push(cur + encode_utf8(s.skip(i))))
        }),
    decreases s.len() - i,
{
    if i == s.len() {
        assert(s.skip(i) =~= Seq::<char>::empty());
        assert(encode_utf8(s.skip(i)) == Seq::<u8>::empty());
        assert(cur + encode_utf8(s.skip(i)) =~= cur);
    } else {
        lemma_encode_skip_step(s, i);
        lemma_scan_plain_run(s, i + 1, cur + char_utf8(s[i]), acc, text);
        assert((cur + char_utf8(s[i])) + encode_utf8(s.skip(i + 1)) =~= cur + (char_utf8(s[i])
            + encode_utf8(s.skip(i + 1))));
    }
}

/// Re-tokenizing an already-unquoted, already-unescaped word — one with
/// no whitespace, no backslash, no quote characters, and not starting
/// with `#` — returns that single word unchanged, in both flavours.
pub proof fn lemma_plain_word_unchanged(s: Seq<char>)
    requires
        s.len() > 0,
        s[0] != '#',
        forall|k: int|
            0 <= k < s.len() ==> !is_space(s[k]) && s[k] != '\\' && s[k] != '\'' && s[k] != '"',
    ensures
        line_words(s) == Ok::<Seq<Seq<u8>>, ShellParseError>(seq![encode_utf8(s)]),
        line_words_text(s) == Ok::<Seq<Seq<u8>>, ShellParseError>(seq![encode_utf8(s)]),
{
    vstd::utf8::encode_utf8_valid_utf8(s);
    assert(s.skip(0) =~= s);
    lemma_encode_skip_step(s, 0);
    lemma_scan_plain_run(s, 1, char_utf8(s[0]), Seq::empty(), false);
    lemma_scan_plain_run(s, 1, char_utf8(s[0]), Seq::empty(), true);
    assert(Seq::<u8>::empty() + char_utf8(s[0]) =~= char_utf8(s[0]));
    assert(char_utf8(s[0]) + encode_utf8(s.skip(1)) =~= encode_utf8(s));
}

/// Inside a single-quoted region whose closing quote stands at `j`, every
/// character before `j` is taken verbatim: the scan continues at `j + 1`
/// in normal state with the region's UTF-8 bytes appended to the word.
proof fn lemma_scan_single_quoted_run(
    s: Seq<char>,
    i: int,
    j: int,
    cur: Seq<u8>,
    in_word: bool,
    acc: Seq<Seq<u8>>,
    text: bool,
)
    requires
        0 <= i <= j < s.len(),
        forall|k: int| i <= k < j ==> s[k] != '\'',
        s[j] == '\'',
    ensures
        scan_line(s, i, ScanState::SingleQuoted, cur, in_word, acc, text) == scan_line(
            s,
            j + 1,
            ScanState::Normal,
            cur + encode_utf8(s.subrange(i, j)),
            in_word,
            acc,
            text,
        ),
    decreases j - i,
{
    if i == j {
        assert(s.subrange(i, j) =~= Seq::<char>::empty());
        assert(cur + encode_utf8(s.subrange(i, j)) =~= cur);
    } else {
        let t = s.subrange(i, j);
        assert(t[0] == s[i]);
        assert(t.drop_first() =~= s.subrange(i + 1, j));
        lemma_scan_single_quoted_run(s, i + 1, j, cur + char_utf8(s[i]), in_word, acc, text);
        assert((cur + char_utf8(s[i])) + encode_utf8(s.subrange(i + 1, j)) =~= cur + (char_utf8(
            s[i],
        ) + encode_utf8(s.subrange(i + 1, j))));
    }
}

/// Concatenation law, single-quoted instance: two adjacent single-quoted
/// runs with no separating whitespace produce one word equal to the
/// concatenation of the two runs' contents.
pub proof fn lemma_adjacent_single_quoted_runs_concat(a: Seq<char>, b: Seq<char>)
    requires
        forall|k: int| 0 <= k < a.len() ==> a[k] != '\'',
        forall|k: int| 0 <= k < b.len() ==> b[k] != '\'',
    ensures
        line_words(seq!['\''] + a + seq!['\''] + seq!['\''] + b + seq!['\'']) == Ok::<
            Seq<Seq<u8>>,
            ShellParseError,
        >(seq![encode_utf8(a) + encode_utf8(b)]),
        line_words_text(seq!['\''] + a + seq!['\''] + seq!['\''] + b + seq!['\'']) == Ok::<
            Seq<Seq<u8>>,
            ShellParseError,
        >(seq![encode_utf8(a) + encode_utf8(b)]),
{
    let s = seq!['\''] + a + seq!['\''] + seq!['\''] + b + seq!['\''];
    let al = a.len() as int;
    let bl = b.len() as int;
    assert(s.len() == al + bl + 4);
    assert(s[0] == '\'');
    assert(forall|k: int| 1 <= k < 1 + al ==> s[k] == a[k - 1] && s[k] != '\'');
    assert(s[1 + al] == '\'');
    assert(s[2 + al] == '\'');
    assert(forall|k: int| 3 + al <= k < 3 + al + bl ==> s[k] == b[k - 3 - al] && s[k] != '\'');
    assert(s[3 + al + bl] == '\'');
    assert(s.subrange(1, 1 + al) =~= a);
    assert(s.subrange(3 + al, 3 + al + bl) =~= b);
    let w = encode_utf8(a) + encode_utf8(b);
    vstd::utf8::encode_utf8_valid_utf8(a);
    vstd::utf8::encode_utf8_valid_utf8(b);
    vstd::utf8::valid_utf8_concat(encode_utf8(a), encode_utf8(b));

    assert forall|text: bool|
        scan_line(s, 0, ScanState::Normal, Seq::empty(), false, Seq::empty(), text) == Ok::<
            Seq<Seq<u8>>,
            ShellParseError,
        >(seq![w]) by {
        lemma_scan_single_quoted_run(s, 1, 1 + al, Seq::empty(), true, Seq::empty(), text);
        assert(Seq::<u8>::empty() + encode_utf8(a) =~= encode_utf8(a));
        lemma_scan_single_quoted_run(s, 3 + al, 3 + al + bl, encode_utf8(a), true, Seq::empty(),
            text);
        assert(scan_line(s, 4 + al + bl, ScanState::Normal, w, true, Seq::empty(), text) == Ok::<
            Seq<Seq<u8>>,
            ShellParseError,
        >(seq![w]));
    }
}

/// Plain characters inside a word are taken one by one: the scan at `i`
/// equals the scan at `j` with the segment's UTF-8 bytes appended.
proof fn lemma_scan_plain_segment(
    s: Seq<char>,
    i: int,
    j: int,
    cur: Seq<u8>,
    acc: Seq<Seq<u8>>,
    text: bool,
)
    requires
        0 <= i <= j <= s.len(),
        forall|k: int| i <= k < j ==> !is_space(s[k]) && s[k] != '\\' && s[k] != '\'' && s[k] != '"',
    ensures
        scan_line(s, i, ScanState::Normal, cur, true, acc, text) == scan_line(
            s,
            j,
            ScanState::Normal,
            cur + encode_utf8(s.subrange(i, j)),
            true,
            acc,
            text,
        ),
    decreases j - i,
{
    if i == j {
        assert(s.subrange(i, j) =~= Seq::<char>::empty());
        assert(cur + encode_utf8(s.subrange(i, j)) =~= cur);
    } else {
        let t = s.subrange(i, j);
        assert(t[0] == s[i]);
        assert(t.drop_first() =~= s.subrange(i + 1, j));
        lemma_scan_plain_segment(s, i + 1, j, cur + char_utf8(s[i]), acc, text);
        assert((cur + char_utf8(s[i])) + encode_utf8(s.subrange(i + 1, j)) =~= cur + (char_utf8(
            s[i],
        ) + encode_utf8(s.subrange(i + 1, j))));
    }
}

/// A double-quoted region free of `"` and `\` whose closing quote stands
/// at `j` decodes to exactly the region's UTF-8 bytes.
proof fn lemma_scan_dquoted_plain_run(s: Seq<char>, i: int, j: int)
    requires
        0 <= i <= j < s.len(),
        forall|k: int| i <= k < j ==> s[k] != '"' && s[k] != '\\',
        s[j] == '"',
    ensures
        scan_dquoted(s, i) == Ok::<(int, Seq<u8>), ShellParseError>((
            j + 1,
            encode_utf8(s.subrange(i, j)),
        )),
    decreases j - i,
{
    if i == j {
        assert(s.subrange(i, j) =~= Seq::<char>::empty());
    } else {
        let t = s.subrange(i, j);
        assert(t[0] == s[i]);
        assert(t.drop_first() =~= s.subrange(i + 1, j));
        lemma_scan_dquoted_plain_run(s, i + 1, j);
    }
}

/// Concatenation law, mixed instance: an unquoted run, an adjacent
/// double-quoted run and another unquoted run, with no separating
/// whitespace, produce one word equal to the concatenation of the three
/// runs' decoded contents.
pub proof fn lemma_adjacent_mixed_runs_concat(u: Seq<char>, m: Seq<char>, v: Seq<char>)
    requires
        u.len() > 0,
        u[0] != '#',
        forall|k: int|
            0 <= k < u.len() ==> !is_space(u[k]) && u[k] != '\\' && u[k] != '\'' && u[k] != '"',
        forall|k: int| 0 <= k < m.len() ==> m[k] != '"' && m[k] != '\\',
        forall|k: int|
            0 <= k < v.len() ==> !is_space(v[k]) && v[k] != '\\' && v[k] != '\'' && v[k] != '"',
    ensures
        line_words(u + seq!['"'] + m + seq!['"'] + v) == Ok::<Seq<Seq<u8>>, ShellParseError>(
            seq![encode_utf8(u) + encode_utf8(m) + encode_utf8(v)],
        ),
        line_words_text(u + seq!['"'] + m + seq!['"'] + v) == Ok::<Seq<Seq<u8>>, ShellParseError>(
            seq![encode_utf8(u) + encode_utf8(m) + encode_utf8(v)],
        ),
{
    let s = u + seq!['"'] + m + seq!['"'] + v;
    let ul = u.len() as int;
    let ml = m.len() as int;
    let vl = v.len() as int;
    assert(s.len() == ul + ml + vl + 2);
    assert(forall|k: int| 0 <= k < ul ==> s[k] == u[k]);
    assert(s[ul] == '"');
    assert(forall|k: int| ul + 1 <= k < ul + 1 + ml ==> s[k] == m[k - ul - 1]);
    assert(s[ul + 1 + ml] == '"');
    assert(forall|k: int| ul + ml + 2 <= k < s.len() ==> s[k] == v[k - ul - ml - 2]);
    assert(s.subrange(1, ul) =~= u.drop_first());
    assert(s.subrange(ul + 1, ul + 1 + ml) =~= m);
    assert(s.subrange(ul + ml + 2, s.len() as int) =~= v);
    let w = encode_utf8(u) + encode_utf8(m) + encode_utf8(v);
    vstd::utf8::encode_utf8_valid_utf8(u);
    vstd::utf8::encode_utf8_valid_utf8(m);
    vstd::utf8::encode_utf8_valid_utf8(v);
    vstd::utf8::valid_utf8_concat(encode_utf8(u), encode_utf8(m));
    vstd::utf8::valid_utf8_concat(encode_utf8(u) + encode_utf8(m), encode_utf8(v));

    assert(u.drop_first() =~= u.skip(1));
    assert(encode_utf8(u) == char_utf8(u[0]) + encode_utf8(u.drop_first()));

    assert forall|text: bool|
        scan_line(s, 0, ScanState::Normal, Seq::empty(), false, Seq::empty(), text) == Ok::<
            Seq<Seq<u8>>,
            ShellParseError,
        >(seq![w]) by {
        // first character of the unquoted run opens the word
        assert(scan_line(s, 0, ScanState::Normal, Seq::empty(), false, Seq::empty(), text)
            == scan_line(
            s,
            1,
            ScanState::Normal,
            Seq::<u8>::empty() + char_utf8(s[0]),
            true,
            Seq::empty(),
            text,
        ));
        assert(Seq::<u8>::empty() + char_utf8(s[0]) =~= char_utf8(u[0]));
        lemma_scan_plain_segment(s, 1, ul, char_utf8(u[0]), Seq::empty(), text);
        assert(char_utf8(u[0]) + encode_utf8(s.subrange(1, ul)) =~= encode_utf8(u));
        // the double-quoted region
        lemma_scan_dquoted_plain_run(s, ul + 1, ul + 1 + ml);
        assert(scan_line(s, ul, ScanState::Normal, encode_utf8(u), true, Seq::empty(), text)
            == scan_line(
            s,
            ul + ml + 2,
            ScanState::Normal,
            encode_utf8(u) + encode_utf8(m),
            true,
            Seq::empty(),
            text,
        ));
        // the trailing unquoted run and the final flush
        lemma_scan_plain_segment(s, ul + ml + 2, s.len() as int, encode_utf8(u) + encode_utf8(m),
            Seq::empty(), text);
        assert((encode_utf8(u) + encode_utf8(m)) + encode_utf8(
            s.subrange(ul + ml + 2, s.len() as int),
        ) =~= w);
        assert(scan_line(s, s.len() as int, ScanState::Normal, w, true, Seq::empty(), text)
            == Ok::<Seq<Seq<u8>>, ShellParseError>(seq![w]));
    }
}

/// Double-quote fallback preserves unknown escapes, unquoted mode drops
/// the backslash: for any character that names no escape, `\X` inside
/// double quotes (or in argument mode) keeps the backslash, while an
/// unquoted `\X` yields `X` alone.
pub proof fn lemma_unknown_escape_fallback(c: char)
    requires
        simple_escape(c) is None,
        c != '\n',
        c != '0',
        c != 'x',
        c != 'u',
    ensures
        arg_bytes(seq!['\\', c]) == Ok::<Seq<u8>, ShellParseError>(seq![0x5cu8] + char_utf8(c)),
        line_words(seq!['\\', c]) == Ok::<Seq<Seq<u8>>, ShellParseError>(seq![char_utf8(c)]),
        line_words(seq!['"', '\\', c, '"']) == Ok::<Seq<Seq<u8>>, ShellParseError>(
            seq![seq![0x5cu8] + char_utf8(c)],
        ),
{
    let s1 = seq!['\\', c];
    assert(scan_escape(s1, 1, true) == Ok::<(int, Seq<u8>), ShellParseError>((
        2,
        seq![0x5cu8] + char_utf8(c),
    )));
    assert(scan_arg(s1, 2) == Ok::<Seq<u8>, ShellParseError>(Seq::empty()));
    assert((seq![0x5cu8] + char_utf8(c)) + Seq::<u8>::empty() =~= seq![0x5cu8] + char_utf8(c));

    assert(scan_escape(s1, 1, false) == Ok::<(int, Seq<u8>), ShellParseError>((2, char_utf8(c))));
    assert(Seq::<u8>::empty() + char_utf8(c) =~= char_utf8(c));
    assert(scan_line(s1, 2, ScanState::Normal, char_utf8(c), true, Seq::empty(), false) == Ok::<
        Seq<Seq<u8>>,
        ShellParseError,
    >(seq![char_utf8(c)]));

    let s2 = seq!['"', '\\', c, '"'];
    let bs = seq![0x5cu8] + char_utf8(c);
    assert(scan_escape(s2, 2, true) == Ok::<(int, Seq<u8>), ShellParseError>((3, bs)));
    assert(scan_dquoted(s2, 3) == Ok::<(int, Seq<u8>), ShellParseError>((4, Seq::empty())));
    assert(bs + Seq::<u8>::empty() =~= bs);
    assert(scan_dquoted(s2, 1) == Ok::<(int, Seq<u8>), ShellParseError>((4, bs)));
    assert(Seq::<u8>::empty() + bs =~= bs);
    assert(scan_line(s2, 4, ScanState::Normal, bs, true, Seq::empty(), false) == Ok::<
        Seq<Seq<u8>>,
        ShellParseError,
    >(seq![bs]));
}

/// Once in a single-quoted region, input that never closes the quote ends
/// in the unmatched-single-quote error, whatever else it holds.
proof fn lemma_scan_single_quoted_unclosed(
    s: Seq<char>,
    i: int,
    cur: Seq<u8>,
    in_word: bool,
    acc: Seq<Seq<u8>>,
    text: bool,
)
    requires
        0 <= i <= s.len(),
        forall|k: int| i <= k < s.len() ==> s[k] != '\'',
    ensures
        scan_line(s, i, ScanState::SingleQuoted, cur, in_word, acc, text) == Err::<
            Seq<Seq<u8>>,
            ShellParseError,
        >(ShellParseError::UnmatchedSingleQuote),
    decreases s.len() - i,
{
    if i < s.len() {
        lemma_scan_single_quoted_unclosed(s, i + 1, cur + char_utf8(s[i]), in_word, acc, text);
    }
}

/// An input that opens a single quote and never closes it returns the
/// unmatched-single-quote error, never a generic failure.
pub proof fn lemma_unmatched_single_quote_error(s: Seq<char>)
    requires
        forall|k: int| 0 <= k < s.len() ==> s[k] != '\'',
    ensures
        line_words(seq!['\''] + s) == Err::<Seq<Seq<u8>>, ShellParseError>(
            ShellParseError::UnmatchedSingleQuote,
        ),
        line_words_text(seq!['\''] + s) == Err::<Seq<Seq<u8>>, ShellParseError>(
            ShellParseError::UnmatchedSingleQuote,
        ),
{
    let t = seq!['\''] + s;
    assert(t[0] == '\'');
    assert(forall|k: int| 1 <= k < t.len() ==> t[k] == s[k - 1] && t[k] != '\'');
    lemma_scan_single_quoted_unclosed(t, 1, Seq::empty(), true, Seq::empty(), false);
    lemma_scan_single_quoted_unclosed(t, 1, Seq::empty(), true, Seq::empty(), true);
}

/// A double-quoted region over characters that are neither `"` nor `\`
/// and that never closes ends in the unmatched-double-quote error.
proof fn lemma_scan_dquoted_unclosed(s: Seq<char>, i: int)
    requires
        0 <= i <= s.len(),
        forall|k: int| i <= k < s.len() ==> s[k] != '"' && s[k] != '\\',
    ensures
        scan_dquoted(s, i) == Err::<(int, Seq<u8>), ShellParseError>(
            ShellParseError::UnmatchedDoubleQuote,
        ),
    decreases s.len() - i,
{
    if i < s.len() {
        lemma_scan_dquoted_unclosed(s, i + 1);
    }
}

/// An input that opens a double quote and never closes it (and holds no
/// escape that could consume one) returns the unmatched-double-quote
/// error, never a generic failure.
pub proof fn lemma_unmatched_double_quote_error(s: Seq<char>)
    requires
        forall|k: int| 0 <= k < s.len() ==> s[k] != '"' && s[k] != '\\',
    ensures
        line_words(seq!['"'] + s) == Err::<Seq<Seq<u8>>, ShellParseError>(
            ShellParseError::UnmatchedDoubleQuote,
        ),
        line_words_text(seq!['"'] + s) == Err::<Seq<Seq<u8>>, ShellParseError>(
            ShellParseError::UnmatchedDoubleQuote,
        ),
{
    let t = seq!['"'] + s;
    assert(t[0] == '"');
    assert(forall|k: int| 1 <= k < t.len() ==> t[k] == s[k - 1] && t[k] != '"' && t[k] != '\\');
    lemma_scan_dquoted_unclosed(t, 1);
}

/// A successful byte-level scan only ever appends to the words gathered
/// so far: what was in the accumulator stands unchanged at the front of
/// the result.
proof fn lemma_scan_line_acc_prefix(
    s: Seq<char>,
    i: int,
    st: ScanState,
    cur: Seq<u8>,
    iw: bool,
    acc: Seq<Seq<u8>>,
    ws: Seq<Seq<u8>>,
)
    requires
        scan_line(s, i, st, cur, iw, acc, false) == Ok::<Seq<Seq<u8>>, ShellParseError>(ws),
    ensures
        ws.len() >= acc.len(),
        ws.take(acc.len() as int) == acc,
    decreases s.len() - i,
{
    if i < 0 || i >= s.len() {
        if (st is Normal) && iw {
            assert(acc.push(cur).take(acc.len() as int) =~= acc);
        } else {
            assert(acc.take(acc.len() as int) =~= acc);
        }
    } else {
        let c = s[i];
        match st {
            ScanState::Normal => {
                if is_space(c) {
                    if iw {
                        lemma_scan_line_acc_prefix(s, i + 1, st, Seq::empty(), false, acc.push(
                            cur,
                        ), ws);
                        assert(ws.take(acc.len() as int) =~= acc) by {
                            assert(ws.take((acc.len() + 1) as int) == acc.push(cur));
                            assert(forall|k: int|
                                0 <= k < acc.len() ==> ws[k] == acc.push(cur)[k]);
                        }
                    } else {
                        lemma_scan_line_acc_prefix(s, i + 1, st, cur, iw, acc, ws);
                    }
                } else if c == '\'' {
                    lemma_scan_line_acc_prefix(s, i + 1, ScanState::SingleQuoted, cur, true, acc,
                        ws);
                } else if c == '"' {
                    match scan_dquoted(s, i + 1) {
                        Err(_) => {},
                        Ok((j, bs)) => {
                            lemma_scan_dquoted_bounds(s, i + 1);
                            lemma_scan_line_acc_prefix(s, j, st, cur + bs, true, acc, ws);
                        },
                    }
                } else if c == '\\' {
                    match scan_escape(s, i + 1, false) {
                        Err(_) => {},
                        Ok((j, bs)) => {
                            lemma_scan_escape_bounds(s, i + 1, false);
                            lemma_scan_line_acc_prefix(s, j, st, cur + bs, true, acc, ws);
                        },
                    }
                } else if c == '#' && !iw {
                    assert(acc.take(acc.len() as int) =~= acc);
                } else {
                    lemma_scan_line_acc_prefix(s, i + 1, st, cur + char_utf8(c), true, acc, ws);
                }
            },
            ScanState::SingleQuoted => {
                if c == '\'' {
                    lemma_scan_line_acc_prefix(s, i + 1, ScanState::Normal, cur, iw, acc, ws);
                } else {
                    lemma_scan_line_acc_prefix(s, i + 1, st, cur + char_utf8(c), iw, acc, ws);
                }
            },
        }
    }
}

/// Text-mode agreement, generalized over the scanner's state: when the
/// byte-producing scan succeeds and every word it still flushes is valid
/// UTF-8, the text-producing scan returns the same words.
proof fn lemma_scan_line_text_agrees(
    s: Seq<char>,
    i: int,
    st: ScanState,
    cur: Seq<u8>,
    iw: bool,
    acc: Seq<Seq<u8>>,
    ws: Seq<Seq<u8>>,
)
    requires
        scan_line(s, i, st, cur, iw, acc, false) == Ok::<Seq<Seq<u8>>, ShellParseError>(ws),
        forall|k: int| acc.len() <= k < ws.len() ==> valid_utf8(#[trigger] ws[k]),
    ensures
        scan_line(s, i, st, cur, iw, acc, true) == Ok::<Seq<Seq<u8>>, ShellParseError>(ws),
    decreases s.len() - i,
{
    lemma_scan_line_acc_prefix(s, i, st, cur, iw, acc, ws);
    if i < 0 || i >= s.len() {
        if (st is Normal) && iw {
            assert(ws == acc.push(cur));
            assert(ws[acc.len() as int] == cur);
            assert(valid_utf8(cur));
        }
    } else {
        let c = s[i];
        match st {
            ScanState::Normal => {
                if is_space(c) {
                    if iw {
                        let acc2 = acc.push(cur);
                        lemma_scan_line_acc_prefix(s, i + 1, st, Seq::empty(), false, acc2, ws);
                        assert(ws[acc.len() as int] == cur) by {
                            assert(ws.take(acc2.len() as int) == acc2);
                            assert(ws.take(acc2.len() as int)[acc.len() as int] == acc2[acc.len()
                                as int]);
                        }
                        assert(valid_utf8(cur));
                        lemma_scan_line_text_agrees(s, i + 1, st, Seq::empty(), false, acc2, ws);
                    } else {
                        lemma_scan_line_text_agrees(s, i + 1, st, cur, iw, acc, ws);
                    }
                } else if c == '\'' {
                    lemma_scan_line_text_agrees(s, i + 1, ScanState::SingleQuoted, cur, true, acc,
                        ws);
                } else if c == '"' {
                    match scan_dquoted(s, i + 1) {
                        Err(_) => {},
                        Ok((j, bs)) => {
                            lemma_scan_dquoted_bounds(s, i + 1);
                            lemma_scan_line_text_agrees(s, j, st, cur + bs, true, acc, ws);
                        },
                    }
                } else if c == '\\' {
                    match scan_escape(s, i + 1, false) {
                        Err(_) => {},
                        Ok((j, bs)) => {
                            lemma_scan_escape_bounds(s, i + 1, false);
                            lemma_scan_line_text_agrees(s, j, st, cur + bs, true, acc, ws);
                        },
                    }
                } else if c == '#' && !iw {
                } else {
                    lemma_scan_line_text_agrees(s, i + 1, st, cur + char_utf8(c), true, acc, ws);
                }
            },
            ScanState::SingleQuoted => {
                if c == '\'' {
                    lemma_scan_line_text_agrees(s, i + 1, ScanState::Normal, cur, iw, acc, ws);
                } else {
                    lemma_scan_line_text_agrees(s, i + 1, st, cur + char_utf8(c), iw, acc, ws);
                }
            },
        }
    }
}

/// The text flavour is the byte flavour plus validation: whenever the
/// byte-level tokenizer succeeds and every word it returns is valid
/// UTF-8, the text-producing tokenizer returns exactly those words.
pub proof fn lemma_text_flavor_agrees(s: Seq<char>, ws: Seq<Seq<u8>>)
    requires
        line_words(s) == Ok::<Seq<Seq<u8>>, ShellParseError>(ws),
        forall|k: int| 0 <= k < ws.len() ==> valid_utf8(#[trigger] ws[k]),
    ensures
        line_words_text(s) == Ok::<Seq<Seq<u8>>, ShellParseError>(ws),
{
    lemma_scan_line_text_agrees(
        s,
        0,
        ScanState::Normal,
        Seq::empty(),
        false,
        Seq::empty(),
        ws,
    );
}

/// In argument mode, everything before the final backslash is literal.
proof fn lemma_scan_arg_trailing_backslash(s: Seq<char>, i: int)
    requires
        0 <= i < s.len(),
        forall|k: int| i <= k < s.len() - 1 ==> s[k] != '\\',
        s[s.len() - 1] == '\\',
    ensures
        scan_arg(s, i) == Err::<Seq<u8>, ShellParseError>(ShellParseError::TrailingBackslash),
    decreases s.len() - i,
{
    if i == s.len() - 1 {
        assert(scan_escape(s, i + 1, true) == Err::<(int, Seq<u8>), ShellParseError>(
            ShellParseError::TrailingBackslash,
        ));
    } else {
        lemma_scan_arg_trailing_backslash(s, i + 1);
    }
}

/// An argument string whose only backslash is its last character returns
/// the trailing-backslash error, never a generic failure.
pub proof fn lemma_trailing_backslash_error(s: Seq<char>)
    requires
        forall|k: int| 0 <= k < s.len() ==> s[k] != '\\',
    ensures
        arg_bytes(s + seq!['\\']) == Err::<Seq<u8>, ShellParseError>(
            ShellParseError::TrailingBackslash,
        ),
{
    let t = s + seq!['\\'];
    assert(t[t.len() - 1] == '\\');
    assert(forall|k: int| 0 <= k < t.len() - 1 ==> t[k] == s[k] && t[k] != '\\');
    lemma_scan_arg_trailing_backslash(t, 0);
}

} // verus!

