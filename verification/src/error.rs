//! What can go wrong, where it is anchored, and how it reads.

use vstd::prelude::*;
use vstd::string::StringExecFns;
use crate::number::{decimal_text, push_decimal};
use crate::tree::Tag;

verus! {

/// What was required at the place where an error was found.
#[derive(Clone, Copy, Debug, PartialEq, Eq, Structural)]
pub enum Expected {
    /// Any token at all.
    Token,
    /// The comma that separates the address from the body.
    Comma,
    /// A group.
    Group,
    /// The literal of an index selector.
    Literal,
    /// Another index selector, or the end of the address.
    Selector,
    /// Nothing more.
    EndOfInput,
}

/// An error. Each one ends the whole invocation and is reported once, at the
/// location `anchor`.
#[derive(Debug, PartialEq, Eq)]
pub enum Error {
    /// The input ended where something was required.
    UnexpectedEndOfInput { expected: Expected, anchor: Tag },
    /// A token of the wrong shape was found, or a token where none may follow.
    UnexpectedToken { expected: Expected, anchor: Tag },
    /// An index literal, `text` once its suffix is dropped, is no unsigned
    /// integer.
    NumberParseError { text: String, anchor: Tag },
    /// The addressed group, rendered as `group`, has no child `index`.
    IndexOutOfRange { index: usize, group: String, anchor: Tag },
    /// An index selector was applied to the token rendered as `node`.
    NotIndexable { node: String, anchor: Tag },
    /// A directive by the unknown name `name`.
    UnrecognizedDirective { name: String, anchor: Tag },
}

/// The mathematical model of an [`Error`].
pub enum Failure {
    UnexpectedEndOfInput { expected: Expected, anchor: Tag },
    UnexpectedToken { expected: Expected, anchor: Tag },
    NumberParseError { text: Seq<char>, anchor: Tag },
    IndexOutOfRange { index: usize, group: Seq<char>, anchor: Tag },
    NotIndexable { node: Seq<char>, anchor: Tag },
    UnrecognizedDirective { name: Seq<char>, anchor: Tag },
}

impl View for Error {
    type V = Failure;

    open spec fn view(&self) -> Failure {
        match self {
            Error::UnexpectedEndOfInput { expected, anchor } => Failure::UnexpectedEndOfInput {
                expected: *expected,
                anchor: *anchor,
            },
            Error::UnexpectedToken { expected, anchor } => Failure::UnexpectedToken {
                expected: *expected,
                anchor: *anchor,
            },
            Error::NumberParseError { text, anchor } => Failure::NumberParseError {
                text: text@,
                anchor: *anchor,
            },
            Error::IndexOutOfRange { index, group, anchor } => Failure::IndexOutOfRange {
                index: *index,
                group: group@,
                anchor: *anchor,
            },
            Error::NotIndexable { node, anchor } => Failure::NotIndexable {
                node: node@,
                anchor: *anchor,
            },
            Error::UnrecognizedDirective { name, anchor } => Failure::UnrecognizedDirective {
                name: name@,
                anchor: *anchor,
            },
        }
    }
}

/// How a requirement reads in a message.
pub open spec fn expected_text(expected: Expected) -> Seq<char> {
    match expected {
        Expected::Token => "any token"@,
        Expected::Comma => "comma"@,
        Expected::Group => "a group {...}"@,
        Expected::Literal => "literal"@,
        Expected::Selector => "[...] or comma"@,
        Expected::EndOfInput => "end of input"@,
    }
}

impl Failure {
    /// The location at which the error is reported.
    pub open spec fn anchor(self) -> Tag {
        match self {
            Failure::UnexpectedEndOfInput { anchor, .. } => anchor,
            Failure::UnexpectedToken { anchor, .. } => anchor,
            Failure::NumberParseError { anchor, .. } => anchor,
            Failure::IndexOutOfRange { anchor, .. } => anchor,
            Failure::NotIndexable { anchor, .. } => anchor,
            Failure::UnrecognizedDirective { anchor, .. } => anchor,
        }
    }

    /// The message of the error.
    pub open spec fn message(self) -> Seq<char> {
        match self {
            Failure::UnexpectedEndOfInput { expected, .. } => "unexpected end of input, expected "@
                + expected_text(expected),
            Failure::UnexpectedToken { expected, .. } => "unexpected token, expected "@
                + expected_text(expected),
            Failure::NumberParseError { text, .. } => "cannot parse number "@ + text,
            Failure::IndexOutOfRange { index, group, .. } => "index "@ + decimal_text(index as nat)
                + " out of range, of "@ + group,
            Failure::NotIndexable { node, .. } => "cannot index "@ + node + ", e.g [...]"@,
            Failure::UnrecognizedDirective { name, .. } => "unrecognized directive "@ + name,
        }
    }
}

/// How a requirement reads in a message.
fn expected_str(expected: Expected) -> (s: &'static str)
    ensures
        s@ == expected_text(expected),
{
    match expected {
        Expected::Token => "any token",
        Expected::Comma => "comma",
        Expected::Group => "a group {...}",
        Expected::Literal => "literal",
        Expected::Selector => "[...] or comma",
        Expected::EndOfInput => "end of input",
    }
}

impl Error {
    /// The location at which the error is reported.
    pub fn anchor(&self) -> (anchor: Tag)
        ensures
            anchor == self@.anchor(),
    {
        match self {
            Error::UnexpectedEndOfInput { anchor, .. } => *anchor,
            Error::UnexpectedToken { anchor, .. } => *anchor,
            Error::NumberParseError { anchor, .. } => *anchor,
            Error::IndexOutOfRange { anchor, .. } => *anchor,
            Error::NotIndexable { anchor, .. } => *anchor,
            Error::UnrecognizedDirective { anchor, .. } => *anchor,
        }
    }

    /// The message of the error.
    pub fn message(&self) -> (message: String)
        ensures
            message@ == self@.message(),
    {
        match self {
            Error::UnexpectedEndOfInput { expected, .. } => {
                let mut out = String::from_str("unexpected end of input, expected ");
                out.append(expected_str(*expected));
                out
            },
            Error::UnexpectedToken { expected, .. } => {
                let mut out = String::from_str("unexpected token, expected ");
                out.append(expected_str(*expected));
                out
            },
            Error::NumberParseError { text, .. } => {
                let mut out = String::from_str("cannot parse number ");
                out.append(text.as_str());
                out
            },
            Error::IndexOutOfRange { index, group, .. } => {
                let mut out = String::from_str("index ");
                push_decimal(&mut out, *index);
                out.append(" out of range, of ");
                out.append(group.as_str());
                out
            },
            Error::NotIndexable { node, .. } => {
                let mut out = String::from_str("cannot index ");
                out.append(node.as_str());
                out.append(", e.g [...]");
                out
            },
            Error::UnrecognizedDirective { name, .. } => {
                let mut out = String::from_str("unrecognized directive ");
                out.append(name.as_str());
                out
            },
        }
    }
}

} // verus!
