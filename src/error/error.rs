use vstd::prelude::*;

verus! {

/// A general error carrying either a message or the bare matter kind.
#[derive(Clone, Debug, PartialEq)]
pub enum Error {
    Message(String),
    MatterError,
}

impl Error {
    /// The text that describes the error: the message itself, or
    /// "matter error".
    pub fn message(&self) -> (r: String)
        ensures
            match self {
                Error::Message(m) => r@ == m@,
                Error::MatterError => r@ == "matter error"@,
            },
    {
        match self {
            Error::Message(m) => m.clone(),
            Error::MatterError => String::from_str("matter error"),
        }
    }
}

} // verus!
