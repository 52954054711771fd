use vstd::prelude::*;

verus! {

/// The operating system family that decides path separators and file names.
#[derive(Clone, Copy, Debug, PartialEq, Eq, Structural)]
pub enum Platform {
    Windows,
    MacOs,
    Linux,
}

impl Platform {
    /// True for the one family whose paths use `\` and `;`.
    pub fn is_windows(&self) -> (r: bool)
        ensures
            r == (*self == Platform::Windows),
    {
        match self {
            Platform::Windows => true,
            _ => false,
        }
    }
}

} // verus!
