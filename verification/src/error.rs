//! Errors of the library.
use vstd::prelude::*;

verus! {

/// What went wrong while reading a document.
#[derive(Debug)]
pub enum Error {
    /// The input does not have the shape of an html document or fragment.
    Parsing(String),
}

impl Error {
    /// The text of the error.
    pub fn message(&self) -> (s: String)
        ensures
            match self {
                Error::Parsing(m) => s@ == m@,
            },
    {
        match self {
            Error::Parsing(m) => m.clone(),
        }
    }
}

} // verus!
