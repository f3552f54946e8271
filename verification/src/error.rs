//! The error type of parsing and formatting.
use vstd::prelude::*;
use crate::text::{decimal, usize_to_decimal};

verus! {

broadcast use vstd::string::group_string_axioms;

/// `std::io::Error`, carried through unchanged from a reader or writer.
#[verifier::external_type_specification]
#[verifier::external_body]
pub struct ExIoError(std::io::Error);

/// An error from parsing or serializing phig.
#[derive(Debug)]
pub enum Error {
    /// A syntax or semantic error with a human-readable message and optional byte position.
    Syntax {
        /// The error message.
        msg: String,
        /// Byte offset in the input where the error occurred, if applicable.
        pos: Option<usize>,
    },
    /// An IO error passed through from the underlying reader/writer.
    Io(std::io::Error),
}

/// What an [`Error`] says: its message and position, or that it came from I/O.
pub enum ErrorView {
    Syntax { msg: Seq<char>, pos: Option<usize> },
    Io,
}

impl View for Error {
    type V = ErrorView;

    open spec fn view(&self) -> ErrorView {
        match self {
            Error::Syntax { msg, pos } => ErrorView::Syntax { msg: msg@, pos: *pos },
            Error::Io(_) => ErrorView::Io,
        }
    }
}

/// The text that displaying an error shows: `at position P: MSG` when it
/// has a position, the message alone when it has none.
pub open spec fn display_text(e: ErrorView) -> Option<Seq<char>> {
    match e {
        ErrorView::Syntax { msg, pos: Some(p) } => Some(
            "at position "@ + decimal(p as nat) + ": "@ + msg,
        ),
        ErrorView::Syntax { msg, pos: None } => Some(msg),
        ErrorView::Io => None,
    }
}

impl Error {
    /// Create an error with no position.
    pub fn new(msg: &str) -> (e: Error)
        ensures
            e@ == (ErrorView::Syntax { msg: msg@, pos: None }),
    {
        Error::Syntax { msg: msg.to_string(), pos: None }
    }

    /// Create an error at a byte position.
    pub fn at(msg: String, pos: usize) -> (e: Error)
        ensures
            e@ == (ErrorView::Syntax { msg: msg@, pos: Some(pos) }),
    {
        Error::Syntax { msg, pos: Some(pos) }
    }

    /// The error message, if this is a syntax error.
    pub fn msg(&self) -> (m: Option<&str>)
        ensures
            match self@ {
                ErrorView::Syntax { msg, .. } => m.is_some() && m.unwrap()@ == msg,
                ErrorView::Io => m.is_none(),
            },
    {
        match self {
            Error::Syntax { msg, .. } => Some(msg.as_str()),
            Error::Io(_) => None,
        }
    }

    /// Byte offset in the input where the error occurred, if applicable.
    pub fn pos(&self) -> (p: Option<usize>)
        ensures
            p == match self@ {
                ErrorView::Syntax { pos, .. } => pos,
                ErrorView::Io => None,
            },
    {
        match self {
            Error::Syntax { pos, .. } => *pos,
            Error::Io(_) => None,
        }
    }

    /// If this error wraps an [`std::io::Error`], return it.
    pub fn into_io(self) -> (r: Option<std::io::Error>)
        ensures
            r.is_some() <==> self@ is Io,
            self matches Error::Io(e) ==> r == Some(e),
    {
        match self {
            Error::Io(e) => Some(e),
            _ => None,
        }
    }

    /// Wrap an I/O error.
    pub fn from_io(e: std::io::Error) -> (r: Error)
        ensures
            r == Error::Io(e),
    {
        Error::Io(e)
    }

    /// The text that displaying the error shows, for a syntax error:
    /// `at position P: MSG`, or `MSG` when there is no position.
    pub fn display(&self) -> (s: Option<String>)
        ensures
            display_text(self@) == match s {
                Some(t) => Some(t@),
                None => None::<Seq<char>>,
            },
    {
        match self {
            Error::Syntax { msg, pos: Some(p) } => {
                let mut t = "at position ".to_string();
                let d = usize_to_decimal(*p);
                t.append(d.as_str());
                t.append(": ");
                t.append(msg.as_str());
                Some(t)
            },
            Error::Syntax { msg, pos: None } => Some(msg.clone()),
            Error::Io(_) => None,
        }
    }
}

} // verus!
