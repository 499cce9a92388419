//! Error types used by profcast.

use vstd::prelude::*;

use crate::number::{decimal, push_decimal};

verus! {

/// An error of the operating system, as the standard library reports it.
#[verifier::external_type_specification]
#[verifier::external_body]
pub struct ExIoError(std::io::Error);

/// An error of the JSON reader or writer.
#[verifier::external_type_specification]
#[verifier::external_body]
pub struct ExJsonError(serde_json::Error);

/// The place at which bytes stop being UTF-8.
#[verifier::external_type_specification]
#[verifier::external_body]
pub struct ExUtf8Error(std::str::Utf8Error);

/// Convenience Result wrapper used throughout profcast.
pub type Result<T> = std::result::Result<T, ProfcastError>;

/// Errors returned by profcast operations.
#[derive(Debug)]
#[non_exhaustive]
pub enum ProfcastError {
    /// An I/O operation failed.
    Io(std::io::Error),
    /// A JSON operation failed.
    Json(serde_json::Error),
    /// Input bytes were not valid UTF-8 text.
    Utf8(std::str::Utf8Error),
    /// A profile could not be parsed from its input.
    Parse {
        /// 1-based line number where parsing failed.
        line: usize,
        /// Human-readable description of what went wrong.
        message: String,
    },
    /// A profile violated the data model's structural invariants.
    InvalidProfile(String),
    /// A binary format's wire representation could not be decoded.
    Decode(String),
    /// A live source failed while sampling.
    Capture(String),
    /// A requested operation is not supported on this host (wrong platform,
    /// missing kernel feature, insufficient permissions).
    Unsupported(String),
}

/// What an error says: its kind, and its text where this crate wrote it.
#[verifier::ext_equal]
pub enum ErrorView {
    Io,
    Json,
    Utf8,
    Parse { line: nat, message: Seq<char> },
    InvalidProfile(Seq<char>),
    Decode(Seq<char>),
    Capture(Seq<char>),
    Unsupported(Seq<char>),
}

impl View for ProfcastError {
    type V = ErrorView;

    open spec fn view(&self) -> ErrorView {
        match self {
            ProfcastError::Io(_) => ErrorView::Io,
            ProfcastError::Json(_) => ErrorView::Json,
            ProfcastError::Utf8(_) => ErrorView::Utf8,
            ProfcastError::Parse { line, message } => ErrorView::Parse {
                line: *line as nat,
                message: message@,
            },
            ProfcastError::InvalidProfile(text) => ErrorView::InvalidProfile(text@),
            ProfcastError::Decode(text) => ErrorView::Decode(text@),
            ProfcastError::Capture(text) => ErrorView::Capture(text@),
            ProfcastError::Unsupported(text) => ErrorView::Unsupported(text@),
        }
    }
}

/// What a call came to: what it returned, or what its error says.
pub open spec fn outcome<T: View>(r: Result<T>) -> std::result::Result<T::V, ErrorView> {
    match r {
        Ok(value) => Ok(value@),
        Err(error) => Err(error@),
    }
}

impl From<std::io::Error> for ProfcastError {
    fn from(error: std::io::Error) -> (r: Self) {
        ProfcastError::Io(error)
    }
}

impl vstd::std_specs::convert::FromSpecImpl<std::io::Error> for ProfcastError {
    open spec fn obeys_from_spec() -> bool {
        true
    }

    open spec fn from_spec(error: std::io::Error) -> Self {
        ProfcastError::Io(error)
    }
}

impl From<serde_json::Error> for ProfcastError {
    fn from(error: serde_json::Error) -> (r: Self) {
        ProfcastError::Json(error)
    }
}

impl vstd::std_specs::convert::FromSpecImpl<serde_json::Error> for ProfcastError {
    open spec fn obeys_from_spec() -> bool {
        true
    }

    open spec fn from_spec(error: serde_json::Error) -> Self {
        ProfcastError::Json(error)
    }
}

impl From<std::str::Utf8Error> for ProfcastError {
    fn from(error: std::str::Utf8Error) -> (r: Self) {
        ProfcastError::Utf8(error)
    }
}

impl vstd::std_specs::convert::FromSpecImpl<std::str::Utf8Error> for ProfcastError {
    open spec fn obeys_from_spec() -> bool {
        true
    }

    open spec fn from_spec(error: std::str::Utf8Error) -> Self {
        ProfcastError::Utf8(error)
    }
}

impl ErrorView {
    /// What the message of an error of this kind starts with.
    pub open spec fn prefix(self) -> Seq<char> {
        match self {
            ErrorView::Io => "I/O error: "@,
            ErrorView::Json => "JSON error: "@,
            ErrorView::Utf8 => "invalid UTF-8: "@,
            ErrorView::Parse { line, .. } => "parse error on line "@ + decimal(line) + ": "@,
            ErrorView::InvalidProfile(_) => "invalid profile: "@,
            ErrorView::Decode(_) => "decode error: "@,
            ErrorView::Capture(_) => "capture error: "@,
            ErrorView::Unsupported(_) => "unsupported: "@,
        }
    }

    /// What the message of an error goes on with, where this crate wrote it.
    pub open spec fn detail(self) -> Option<Seq<char>> {
        match self {
            ErrorView::Io => None,
            ErrorView::Json => None,
            ErrorView::Utf8 => None,
            ErrorView::Parse { message, .. } => Some(message),
            ErrorView::InvalidProfile(text) => Some(text),
            ErrorView::Decode(text) => Some(text),
            ErrorView::Capture(text) => Some(text),
            ErrorView::Unsupported(text) => Some(text),
        }
    }
}

fn joined(head: &str, tail: &str) -> (r: String)
    ensures
        r@ == head@ + tail@,
{
    let mut out: String = head.to_owned();
    out.push_str(tail);
    out
}

impl ProfcastError {
    /// Whether `text` is the whole message of an error: its kind, then what went
    /// wrong. Of an I/O, JSON or UTF-8 error that is what its `to_string` gives.
    pub open spec fn spells(self, text: Seq<char>) -> bool {
        match self {
            ProfcastError::Io(error) => exists|given: String|
                #[trigger] vstd::string::to_string_from_display_ensures(&error, given) && text
                    == self@.prefix() + given@,
            ProfcastError::Json(error) => exists|given: String|
                #[trigger] vstd::string::to_string_from_display_ensures(&error, given) && text
                    == self@.prefix() + given@,
            ProfcastError::Utf8(error) => exists|given: String|
                #[trigger] vstd::string::to_string_from_display_ensures(&error, given) && text
                    == self@.prefix() + given@,
            _ => self@.detail() matches Some(detail) && text == self@.prefix() + detail,
        }
    }

    /// The message for a reader: the kind of the error, then what went wrong.
    pub fn message(&self) -> (r: String)
        ensures
            self.spells(r@),
            self@.prefix().is_prefix_of(r@),
            self@.detail() matches Some(detail) ==> r@ == self@.prefix() + detail,
    {
        let (head, tail) = match self {
            ProfcastError::Io(error) => ("I/O error: ".to_owned(), error.to_string()),
            ProfcastError::Json(error) => ("JSON error: ".to_owned(), error.to_string()),
            ProfcastError::Utf8(error) => ("invalid UTF-8: ".to_owned(), error.to_string()),
            ProfcastError::Parse { line, message } => {
                let mut head: String = "parse error on line ".to_owned();
                push_decimal(&mut head, *line as u64);
                head.push_str(": ");
                (head, message.clone())
            },
            ProfcastError::InvalidProfile(text) => ("invalid profile: ".to_owned(), text.clone()),
            ProfcastError::Decode(text) => ("decode error: ".to_owned(), text.clone()),
            ProfcastError::Capture(text) => ("capture error: ".to_owned(), text.clone()),
            ProfcastError::Unsupported(text) => ("unsupported: ".to_owned(), text.clone()),
        };
        let r = joined(head.as_str(), tail.as_str());
        assert(head@ == self@.prefix());
        assert(r@.take(self@.prefix().len() as int) =~= self@.prefix());
        r
    }
}

} // verus!
