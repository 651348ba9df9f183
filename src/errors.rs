use vstd::prelude::*;

verus! {

/// The failures the application reports.
#[derive(Clone, Debug, PartialEq, Eq)]
pub enum Error {
    /// A filesystem operation failed; the message says how.
    Io(String),
    /// The shared state could not be locked.
    LockError(String),
    /// Any other failure.
    Errrr(String),
}

impl Error {
    /// The message the error carries.
    pub fn message(&self) -> (r: String)
        ensures
            r@ == match self {
                Error::Io(m) => m@,
                Error::LockError(m) => m@,
                Error::Errrr(m) => m@,
            },
    {
        match self {
            Error::Io(m) => m.clone(),
            Error::LockError(m) => m.clone(),
            Error::Errrr(m) => m.clone(),
        }
    }
}

} // verus!
