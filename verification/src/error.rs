use vstd::prelude::*;

verus! {

/// The failure classes the engine reports.
#[derive(Clone, Copy, Debug, PartialEq, Eq, Structural)]
pub enum ErrorKind {
    Parser,
    IO,
    Display,
    Key,
    File,
    Unknown,
    Socket,
}

/// An engine error, carrying only its class.
#[derive(Clone, Copy, Debug, PartialEq, Eq, Structural)]
pub struct Error {
    pub kind: ErrorKind,
}

impl Error {
    /// The user-facing wording for each failure class.
    pub open spec fn spec_message(self) -> Seq<char> {
        match self.kind {
            ErrorKind::Parser => "invalid sql"@,
            ErrorKind::IO => "filesystem failure"@,
            ErrorKind::Display => "display error"@,
            ErrorKind::Key => "no value for the key"@,
            ErrorKind::File => "wrong file or directory"@,
            ErrorKind::Socket => "network problem"@,
            ErrorKind::Unknown => "unknown error"@,
        }
    }

    /// Renders the error as its message text.
    pub fn message(&self) -> (r: String)
        ensures
            r@ == self.spec_message(),
    {
        let s: &str = match self.kind {
            ErrorKind::Parser => "invalid sql",
            ErrorKind::IO => "filesystem failure",
            ErrorKind::Display => "display error",
            ErrorKind::Key => "no value for the key",
            ErrorKind::File => "wrong file or directory",
            ErrorKind::Socket => "network problem",
            ErrorKind::Unknown => "unknown error",
        };
        s.to_owned()
    }
}

} // verus!
