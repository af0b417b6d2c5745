//! String helpers shared with the process-level plumbing.

use vstd::prelude::*;

verus! {

/// Whether a character is alphabetic, as Unicode defines it.
pub uninterp spec fn is_alpha(c: char) -> bool;

/// Whether a character is alphanumeric, as Unicode defines it.
pub uninterp spec fn is_alnum(c: char) -> bool;

/// The uppercase mapping of one character: one or more characters,
/// depending on the character alone.
pub uninterp spec fn upper_chars(c: char) -> Seq<char>;

/// Relies on char::is_alphabetic: the result depends on the character
/// alone.
#[verifier::external_body]
fn char_is_alphabetic(c: char) -> (r: bool)
    ensures
        r == is_alpha(c),
{
    c.is_alphabetic()
}

/// Relies on char::is_alphanumeric: the result depends on the character
/// alone.
#[verifier::external_body]
fn char_is_alphanumeric(c: char) -> (r: bool)
    ensures
        r == is_alnum(c),
{
    c.is_alphanumeric()
}

/// Relies on char::to_uppercase: its Unicode uppercase mapping, one or
/// more characters depending on the character alone.
#[verifier::external_body]
fn char_to_uppercase(c: char) -> (r: Vec<char>)
    ensures
        r@ == upper_chars(c),
{
    c.to_uppercase().collect()
}

/// Relies on String's FromIterator over characters: the string holding
/// exactly the given characters.
#[verifier::external_body]
fn chars_to_string(v: Vec<char>) -> (r: String)
    ensures
        r@ == v@,
{
    v.into_iter().collect()
}

/// One step of the identifier scan: what the gathered characters and the
/// collapse flag become after reading `c`.  While nothing has been kept,
/// only an alphabetic character starts the identifier; afterwards
/// alphanumeric characters are uppercased and kept, and any run of other
/// characters collapses into a single underscore.
pub open spec fn env_ident_step(acc: Seq<char>, last_us: bool, c: char) -> (Seq<char>, bool) {
    if acc.len() == 0 {
        if is_alpha(c) {
            (upper_chars(c), false)
        } else {
            (acc, last_us)
        }
    } else if is_alnum(c) {
        (acc + upper_chars(c), false)
    } else if !last_us {
        (acc.push('_'), true)
    } else {
        (acc, last_us)
    }
}

/// The identifier scan over the whole input, from position `i`.
pub open spec fn env_ident_scan(s: Seq<char>, i: int, acc: Seq<char>, last_us: bool) -> Seq<char>
    decreases s.len() - i,
{
    if i < 0 || i >= s.len() {
        acc
    } else {
        let (acc2, last2) = env_ident_step(acc, last_us, s[i]);
        env_ident_scan(s, i + 1, acc2, last2)
    }
}

/// The sanitized environment-variable identifier of a string: the scan's
/// result with a single trailing underscore stripped.
pub open spec fn env_ident(s: Seq<char>) -> Seq<char> {
    let r = env_ident_scan(s, 0, Seq::empty(), false);
    if r.len() > 0 && r.last() == '_' {
        r.drop_last()
    } else {
        r
    }
}

/// Sanitize an arbitrary string into a valid, uppercase environment
/// variable name using only `[A-Z0-9_]`.
///
/// - Leading non-alphabetic characters are skipped (env var names must
///   start with a letter).
/// - Remaining alphanumeric characters are uppercased.
/// - Any run of non-alphanumeric characters is collapsed into a single `_`.
/// - A trailing `_` is stripped.
/// - Returns an empty string if the input contains no alphabetic
///   characters.
pub fn make_env_ident(input: &str) -> (r: String)
    ensures
        r@ == env_ident(input@),
{
    let s = crate::parse::str_to_chars(input);
    let mut kept: Vec<char> = Vec::new();
    let mut last_was_underscore = false;
    let mut i: usize = 0;

    while i < s.len()
        invariant
            i <= s@.len(),
            s@ == input@,
            env_ident_scan(s@, 0, Seq::empty(), false) == env_ident_scan(
                s@,
                i as int,
                kept@,
                last_was_underscore,
            ),
        decreases s@.len() - i,
    {
        let c = s[i];
        i += 1;
        if kept.len() == 0 {
            if char_is_alphabetic(c) {
                let u = char_to_uppercase(c);
                extend_chars(&mut kept, &u);
                last_was_underscore = false;
                proof {
                    assert(Seq::<char>::empty() + upper_chars(c) =~= upper_chars(c));
                    assert(kept@ =~= upper_chars(c));
                }
            }
        } else if char_is_alphanumeric(c) {
            let ghost prev = kept@;
            let u = char_to_uppercase(c);
            extend_chars(&mut kept, &u);
            last_was_underscore = false;
            proof {
                assert(kept@ =~= prev + upper_chars(c));
            }
        } else if !last_was_underscore {
            kept.push('_');
            last_was_underscore = true;
        }
    }

    if kept.len() > 0 && kept[kept.len() - 1] == '_' {
        kept.pop();
        proof {
            assert(kept@ =~= env_ident(input@));
        }
    }
    chars_to_string(kept)
}

/// Append every character of `u` to `kept`.
fn extend_chars(kept: &mut Vec<char>, u: &Vec<char>)
    ensures
        final(kept)@ == old(kept)@ + u@,
{
    let mut j: usize = 0;
    while j < u.len()
        invariant
            j <= u@.len(),
            kept@ == old(kept)@ + u@.take(j as int),
        decreases u@.len() - j,
    {
        kept.push(u[j]);
        j += 1;
        proof {
            assert(old(kept)@ + u@.take(j - 1) + seq![u@[j - 1]] =~= old(kept)@ + u@.take(
                j as int,
            ));
        }
    }
    proof {
        assert(old(kept)@ + u@.take(u@.len() as int) =~= old(kept)@ + u@);
    }
}

} // verus!
