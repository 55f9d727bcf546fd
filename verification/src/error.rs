use vstd::prelude::*;

verus! {

/// What can go wrong while talking to git or to the terminal.
#[derive(Debug)]
pub enum Error {
    Git(String),
}

impl Error {
    /// The message shown for the error: `git: ` and what went wrong.
    pub fn to_string(&self) -> (s: String)
        ensures
            s@ == "git: "@ + match self {
                Error::Git(msg) => msg@,
            },
    {
        match self {
            Error::Git(msg) => String::from_str("git: ").concat(msg.as_str()),
        }
    }
}

} // verus!
