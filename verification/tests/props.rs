use esh::{shell_split, ShellParseError};
use esh::shell::ShellError;

// ---- quoting scenarios -----------------------------------------------------

#[test]
fn props_single_quoted_letter() {
    assert_eq!(shell_split("'x'").unwrap(), vec!["x"]);
}

#[test]
fn props_double_quoted_letter() {
    assert_eq!(shell_split("\"x\"").unwrap(), vec!["x"]);
}

#[test]
fn props_empty_single_quotes_make_a_word() {
    assert_eq!(shell_split("''").unwrap(), vec![""]);
}

// ---- law instances ---------------------------------------------------------

#[test]
fn props_whitespace_with_carriage_return() {
    assert_eq!(shell_split(" \r \t ").unwrap(), Vec::<String>::new());
}

#[test]
fn props_adjacent_single_quoted_runs_merge() {
    assert_eq!(shell_split("'ab''cd'").unwrap(), vec!["abcd"]);
}

#[test]
fn props_comment_after_only_whitespace() {
    assert_eq!(shell_split("  \t # rest is gone").unwrap(), Vec::<String>::new());
}

#[test]
fn props_plain_word_tokenizes_to_itself() {
    let first = shell_split("foo-bar_1").unwrap();
    assert_eq!(first, vec!["foo-bar_1"]);
    let again = shell_split(&first[0]).unwrap();
    assert_eq!(again, first);
}

#[test]
fn props_escape_fallback_asymmetry() {
    assert_eq!(shell_split(r"\q").unwrap(), vec!["q"]);
    assert_eq!(shell_split(r#""\q""#).unwrap(), vec![r"\q"]);
}

#[test]
fn props_line_continuation_with_following_word() {
    assert_eq!(
        shell_split("one\\\n  two three").unwrap(),
        vec!["one", "two", "three"],
    );
}

#[test]
fn props_errors_are_specific() {
    assert_eq!(shell_split("'a"), Err(ShellParseError::UnmatchedSingleQuote));
    assert_eq!(shell_split("\"a"), Err(ShellParseError::UnmatchedDoubleQuote));
    assert_eq!(shell_split("a\\"), Err(ShellParseError::TrailingBackslash));
}

// ---- shell error messages --------------------------------------------------

#[test]
fn shell_error_internal_display() {
    let e = ShellError::Internal("boom".into());
    assert_eq!(e.message(), "Internal error: boom");
}

#[test]
fn shell_error_command_not_found_display() {
    let e = ShellError::CommandNotFound;
    assert_eq!(e.message(), "Command not found");
}
