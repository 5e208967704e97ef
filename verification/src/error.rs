use vstd::prelude::*;

verus! {

/// Represents an error of the parser
///
/// Errors result from corrupted TLEs: a wrong length, a misplaced character,
/// a bad checksum or a field that does not parse.
#[derive(Debug, Clone)]
pub struct Error {
    message: String,
}

impl View for Error {
    type V = Seq<char>;

    /// The error's message.
    closed spec fn view(&self) -> Seq<char> {
        self.message@
    }
}

impl Error {
    /// Creates a new error from a string
    pub fn new(message: String) -> (error: Error)
        ensures
            error@ == message@,
    {
        Error { message: message }
    }

    /// Returns the error's message
    pub fn to_string(&self) -> (message: String)
        ensures
            message@ == self@,
    {
        self.message.clone()
    }
}

} // verus!
