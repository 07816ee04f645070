//! What can go wrong, and how it is told.
use vstd::prelude::*;

use crate::text;
use crate::text::{append, append_signed};

verus! {

/// A failure of a library function.
#[derive(Debug)]
pub enum Error {
    /// A stored side number that names no side.
    SideValue(i64),
    /// A side letter that names no side.
    SideChar(char),
    /// A position key of the wrong length.
    KeyLength(String),
    /// A position key whose first half is no mask.
    BlackMask { key: String, cause: String },
    /// A position key whose second half is no mask.
    WhiteMask { key: String, cause: String },
    /// A stored count that is no integer.
    Count { value: String, cause: String },
    /// A position that has handed on more paths than reach it.
    CountsReversed(String),
    /// `--db` as the last argument.
    DatabasePath,
    /// A command that does not exist.
    UnknownCommand(String),
    /// An option as the last argument.
    OptionValue(String),
    /// An option whose value is no integer in range.
    OptionInteger { name: String, value: String, cause: String },
}

/// The content of an [`Error`].
pub enum ErrorView {
    SideValue(int),
    SideChar(char),
    KeyLength(Seq<char>),
    BlackMask { key: Seq<char>, cause: Seq<char> },
    WhiteMask { key: Seq<char>, cause: Seq<char> },
    Count { value: Seq<char>, cause: Seq<char> },
    CountsReversed(Seq<char>),
    DatabasePath,
    UnknownCommand(Seq<char>),
    OptionValue(Seq<char>),
    OptionInteger { name: Seq<char>, value: Seq<char>, cause: Seq<char> },
}

impl View for Error {
    type V = ErrorView;

    open spec fn view(&self) -> ErrorView {
        match *self {
            Error::SideValue(value) => ErrorView::SideValue(value as int),
            Error::SideChar(value) => ErrorView::SideChar(value),
            Error::KeyLength(key) => ErrorView::KeyLength(key@),
            Error::BlackMask { key, cause } => ErrorView::BlackMask { key: key@, cause: cause@ },
            Error::WhiteMask { key, cause } => ErrorView::WhiteMask { key: key@, cause: cause@ },
            Error::Count { value, cause } => ErrorView::Count { value: value@, cause: cause@ },
            Error::CountsReversed(key) => ErrorView::CountsReversed(key@),
            Error::DatabasePath => ErrorView::DatabasePath,
            Error::UnknownCommand(name) => ErrorView::UnknownCommand(name@),
            Error::OptionValue(name) => ErrorView::OptionValue(name@),
            Error::OptionInteger { name, value, cause } => ErrorView::OptionInteger {
                name: name@,
                value: value@,
                cause: cause@,
            },
        }
    }
}

/// A result with its error taken by content.
pub open spec fn outcome<T>(result: Result<T, Error>) -> Result<T, ErrorView> {
    match result {
        Ok(value) => Ok(value),
        Err(error) => Err(error@),
    }
}

impl ErrorView {
    /// The message that a user sees.
    pub open spec fn text(self) -> Seq<char> {
        match self {
            ErrorView::SideValue(value) => "invalid side value: "@ + text::signed_decimal(value),
            ErrorView::SideChar(value) => "invalid side char: "@.push(value),
            ErrorView::KeyLength(key) => "invalid key length: "@ + key,
            ErrorView::BlackMask { key, .. } => "invalid black mask in key: "@ + key,
            ErrorView::WhiteMask { key, .. } => "invalid white mask in key: "@ + key,
            ErrorView::Count { value, .. } => "invalid integer in database: "@ + value,
            ErrorView::CountsReversed(key) =>
                "database invariant broken: propagated_count exceeds reach_count for "@ + key,
            ErrorView::DatabasePath => "--db requires a path"@,
            ErrorView::UnknownCommand(name) => "unknown command: "@ + name,
            ErrorView::OptionValue(name) => name + " requires a value"@,
            ErrorView::OptionInteger { name, value, .. } => "invalid integer for "@ + name + ": "@
                + value,
        }
    }

    /// What lies behind the failure, where that is told too.
    pub open spec fn cause(self) -> Option<Seq<char>> {
        match self {
            ErrorView::BlackMask { cause, .. } => Some(cause),
            ErrorView::WhiteMask { cause, .. } => Some(cause),
            ErrorView::Count { cause, .. } => Some(cause),
            ErrorView::OptionInteger { cause, .. } => Some(cause),
            _ => None,
        }
    }
}

impl Error {
    /// The message that a user sees.
    pub fn message(&self) -> (message: String)
        ensures
            message@ == self@.text(),
    {
        let mut message = String::new();
        match self {
            Error::SideValue(value) => {
                append(&mut message, "invalid side value: ");
                append_signed(&mut message, *value);
            },
            Error::SideChar(value) => {
                append(&mut message, "invalid side char: ");
                message.push(*value);
            },
            Error::KeyLength(key) => {
                append(&mut message, "invalid key length: ");
                append(&mut message, key.as_str());
            },
            Error::BlackMask { key, .. } => {
                append(&mut message, "invalid black mask in key: ");
                append(&mut message, key.as_str());
            },
            Error::WhiteMask { key, .. } => {
                append(&mut message, "invalid white mask in key: ");
                append(&mut message, key.as_str());
            },
            Error::Count { value, .. } => {
                append(&mut message, "invalid integer in database: ");
                append(&mut message, value.as_str());
            },
            Error::CountsReversed(key) => {
                append(
                    &mut message,
                    "database invariant broken: propagated_count exceeds reach_count for ",
                );
                append(&mut message, key.as_str());
            },
            Error::DatabasePath => {
                append(&mut message, "--db requires a path");
            },
            Error::UnknownCommand(name) => {
                append(&mut message, "unknown command: ");
                append(&mut message, name.as_str());
            },
            Error::OptionValue(name) => {
                append(&mut message, name.as_str());
                append(&mut message, " requires a value");
            },
            Error::OptionInteger { name, value, .. } => {
                append(&mut message, "invalid integer for ");
                append(&mut message, name.as_str());
                append(&mut message, ": ");
                append(&mut message, value.as_str());
            },
        }
        message
    }

    /// What lies behind the failure, where that is told too: why a text is no number.
    pub fn cause(&self) -> (cause: Option<String>)
        ensures
            self@.cause() == match cause {
                Some(words) => Some(words@),
                None => None,
            },
    {
        match self {
            Error::BlackMask { cause, .. } => Some(cause.clone()),
            Error::WhiteMask { cause, .. } => Some(cause.clone()),
            Error::Count { cause, .. } => Some(cause.clone()),
            Error::OptionInteger { cause, .. } => Some(cause.clone()),
            _ => None,
        }
    }
}

/// What a message is made of: a fixed beginning, and then what was refused, in full.
pub proof fn law_messages_name_what_was_refused(
    n: int,
    c: char,
    a: Seq<char>,
    b: Seq<char>,
    cause: Seq<char>,
)
    ensures
        ErrorView::SideValue(n).text() == "invalid side value: "@ + text::signed_decimal(n),
        ErrorView::SideChar(c).text() == "invalid side char: "@ + seq![c],
        ErrorView::KeyLength(a).text() == "invalid key length: "@ + a,
        (ErrorView::BlackMask { key: a, cause }).text() == "invalid black mask in key: "@ + a,
        (ErrorView::WhiteMask { key: a, cause }).text() == "invalid white mask in key: "@ + a,
        (ErrorView::Count { value: a, cause }).text() == "invalid integer in database: "@ + a,
        ErrorView::CountsReversed(a).text()
            == "database invariant broken: propagated_count exceeds reach_count for "@ + a,
        ErrorView::DatabasePath.text() == "--db requires a path"@,
        ErrorView::UnknownCommand(a).text() == "unknown command: "@ + a,
        ErrorView::OptionValue(a).text() == a + " requires a value"@,
        (ErrorView::OptionInteger { name: a, value: b, cause }).text() == "invalid integer for "@
            + a + ": "@ + b,
{
    assert("invalid side char: "@.push(c) =~= "invalid side char: "@ + seq![c]);
}

/// A failure to read a number tells why, in the words of the reader, and no other does.
pub proof fn law_causes_are_handed_on(a: Seq<char>, b: Seq<char>, cause: Seq<char>, n: int, c: char)
    ensures
        (ErrorView::BlackMask { key: a, cause }).cause() == Some(cause),
        (ErrorView::WhiteMask { key: a, cause }).cause() == Some(cause),
        (ErrorView::Count { value: a, cause }).cause() == Some(cause),
        (ErrorView::OptionInteger { name: a, value: b, cause }).cause() == Some(cause),
        ErrorView::SideValue(n).cause() is None,
        ErrorView::SideChar(c).cause() is None,
        ErrorView::KeyLength(a).cause() is None,
        ErrorView::CountsReversed(a).cause() is None,
        ErrorView::DatabasePath.cause() is None,
        ErrorView::UnknownCommand(a).cause() is None,
        ErrorView::OptionValue(a).cause() is None,
{
}

/// The content of an error is all that it holds.
pub proof fn law_error_content(error: Error)
    ensures
        match error {
            Error::SideValue(value) => error@ == ErrorView::SideValue(value as int),
            Error::SideChar(value) => error@ == ErrorView::SideChar(value),
            Error::KeyLength(key) => error@ == ErrorView::KeyLength(key@),
            Error::BlackMask { key, cause } => error@ == (ErrorView::BlackMask {
                key: key@,
                cause: cause@,
            }),
            Error::WhiteMask { key, cause } => error@ == (ErrorView::WhiteMask {
                key: key@,
                cause: cause@,
            }),
            Error::Count { value, cause } => error@ == (ErrorView::Count {
                value: value@,
                cause: cause@,
            }),
            Error::CountsReversed(key) => error@ == ErrorView::CountsReversed(key@),
            Error::DatabasePath => error@ == ErrorView::DatabasePath,
            Error::UnknownCommand(name) => error@ == ErrorView::UnknownCommand(name@),
            Error::OptionValue(name) => error@ == ErrorView::OptionValue(name@),
            Error::OptionInteger { name, value, cause } => error@ == (ErrorView::OptionInteger {
                name: name@,
                value: value@,
                cause: cause@,
            }),
        },
{
}

/// A result and its content agree on success and failure, value and error.
pub proof fn law_outcome_is_the_result<T>(result: Result<T, Error>)
    ensures
        result matches Ok(value) ==> outcome(result) == Ok::<T, ErrorView>(value),
        result matches Err(error) ==> outcome(result) == Err::<T, ErrorView>(error@),
{
}

} // verus!
