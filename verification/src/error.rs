//! The error type of the store.

use vstd::prelude::*;
use vstd::std_specs::convert::FromSpecImpl;

verus! {

/// `std::io::Error`, carried through as it is: nothing inside it is seen.
#[verifier::external_type_specification]
#[verifier::external_body]
pub struct ExIoError(std::io::Error);

/// What can go wrong: the file system refused an operation, or data or usage
/// was not as it has to be; the message says which.
#[derive(Debug)]
pub enum Error {
    IoError(std::io::Error),
    MsgError(String),
}

impl Error {
    /// Whether this is an error that carries the text `msg`.
    pub open spec fn carries(self, msg: Seq<char>) -> bool {
        match self {
            Error::MsgError(s) => s@ == msg,
            Error::IoError(_) => false,
        }
    }
}

/// An error that carries `msg`, as the failure of any computation.
pub fn mk_err<T>(msg: &str) -> (r: Result<T, Error>)
    ensures
        r is Err,
        r->Err_0.carries(msg@),
{
    Err(Error::new(msg))
}

/// `std::error::Error::description` on an I/O error: a short text that says
/// what kind of error it is. Nothing is claimed of the text.
#[verifier::external_body]
fn io_error_text(e: &std::io::Error) -> (r: &str) {
    #[allow(deprecated)]
    std::error::Error::description(e)
}

impl Error {
    /// An error that carries `msg`.
    pub fn new(msg: &str) -> (r: Error)
        ensures
            r.carries(msg@),
    {
        Error::MsgError(msg.to_owned())
    }

    /// The text of the error: the message it carries, or the description of
    /// the I/O error inside.
    pub fn msg(&self) -> (r: &str)
        ensures
            self matches Error::MsgError(s) ==> r@ == s@,
    {
        match self {
            Error::IoError(e) => io_error_text(e),
            Error::MsgError(s) => s.as_str(),
        }
    }
}

/// Turns an absent value into an error with a message.
pub trait OptionExt<T> {
    spec fn or_err_spec(self) -> Option<T> where Self: Sized;

    fn or_err(self, msg: &str) -> (r: Result<T, Error>) where Self: Sized
        ensures
            match r {
                Ok(x) => self.or_err_spec() == Some(x),
                Err(e) => self.or_err_spec() is None && e.carries(msg@),
            },
    ;
}

impl<T> OptionExt<T> for Option<T> {
    open spec fn or_err_spec(self) -> Option<T> {
        self
    }

    fn or_err(self, msg: &str) -> (r: Result<T, Error>) {
        match self {
            Some(x) => Ok(x),
            None => Err(Error::new(msg)),
        }
    }
}

impl From<std::io::Error> for Error {
    fn from(e: std::io::Error) -> (r: Error) {
        Error::IoError(e)
    }
}

impl FromSpecImpl<std::io::Error> for Error {
    open spec fn obeys_from_spec() -> bool {
        true
    }

    open spec fn from_spec(e: std::io::Error) -> Error {
        Error::IoError(e)
    }
}

} // verus!
