//! Errors and interfaces of the shell framework around the tokenizer.
//!
//! The command-dispatch machinery itself lives outside the library; what
//! stands here is its error type and the filesystem interface that
//! handlers program against.

use vstd::prelude::*;

verus! {

#[verifier::external_type_specification]
#[verifier::external_body]
pub struct ExIoError(std::io::Error);

/// Errors returned by shell operations.
#[derive(Debug)]
pub enum ShellError {
    /// An internal error that needs higher-level handling
    Internal(String),
    /// The handler did not recognize the subcommand (try the next handler)
    CommandNotFound,
    /// Catch-all for standard IO issues
    Io(std::io::Error),
}

impl ShellError {
    /// Human-readable description of the error, one line per variant.
    pub fn message(&self) -> (r: String)
        ensures
            (match self {
                ShellError::Internal(m) => r@ == "Internal error: "@ + m@,
                ShellError::CommandNotFound => r@ == "Command not found"@,
                ShellError::Io(_) => "IO Error: "@.is_prefix_of(r@),
            }),
    {
        match self {
            ShellError::Internal(m) => String::from_str("Internal error: ").concat(m.as_str()),
            ShellError::CommandNotFound => String::from_str("Command not found"),
            ShellError::Io(e) => {
                let r = String::from_str("IO Error: ").concat(io_error_text(e).as_str());
                proof {
                    assert("IO Error: "@.is_prefix_of(r@));
                }
                r
            },
        }
    }
}

/// Relies on the Display impl of std::io::Error for the error's own text.
#[verifier::external_body]
fn io_error_text(e: &std::io::Error) -> (r: String) {
    format!("{e}")
}

impl From<std::io::Error> for ShellError {
    fn from(e: std::io::Error) -> (r: Self)
        ensures
            r == ShellError::Io(e),
    {
        ShellError::Io(e)
    }
}

impl vstd::std_specs::convert::FromSpecImpl<std::io::Error> for ShellError {
    open spec fn obeys_from_spec() -> bool {
        true
    }

    open spec fn from_spec(e: std::io::Error) -> Self {
        ShellError::Io(e)
    }
}

#[verifier::external_type_specification]
#[verifier::external_body]
pub struct ExPathBuf(std::path::PathBuf);

/// Backend-agnostic VFS interface for the shell.
///
/// Implement this trait to plug in any filesystem backend.
pub trait Vfs: Send {
    /// Return the current working directory of this filesystem.
    fn cwd(&self) -> &std::path::PathBuf;
}

} // verus!
