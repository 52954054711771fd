//! The errors that the launcher reports.
use vstd::prelude::*;

use crate::config::ConfigError;
use crate::text::{chars_of, string_chars, string_of};

verus! {

/// `std::io::Error`, carried through as it is.
#[verifier::external_type_specification]
#[verifier::external_body]
pub struct ExIoError(std::io::Error);

/// An error of a command of the launcher.
#[derive(Debug)]
pub enum AppError {
    Config(ConfigError),
    Io(std::io::Error),
    Message(String),
}

/// The message given when a workspace file to launch is gone.
pub open spec fn missing_workspace_message(path: Seq<char>) -> Seq<char> {
    "Workspace file no longer exists: "@ + path
}

impl AppError {
    /// The error for a workspace file that no longer exists at `path`.
    pub fn missing_workspace(path: &String) -> (r: AppError)
        ensures
            r matches AppError::Message(m) && m@ == missing_workspace_message(path@),
    {
        let mut m = chars_of("Workspace file no longer exists: ");
        let p = string_chars(path);
        let ghost head = m@;
        let mut i: usize = 0;
        while i < p.len()
            invariant
                i <= p@.len(),
                m@ == head + p@.subrange(0, i as int),
            decreases p@.len() - i,
        {
            m.push(p[i]);
            i += 1;
            assert(m@ =~= head + p@.subrange(0, i as int));
        }
        assert(p@.subrange(0, p@.len() as int) =~= p@);
        AppError::Message(string_of(&m))
    }
}

} // verus!
