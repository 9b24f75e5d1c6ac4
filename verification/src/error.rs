//! Why a filter expression was turned down.

use vstd::prelude::*;
use vstd::string::StringExecFns;

verus! {

/// The two ways in which a filter expression can be invalid.
#[derive(Clone, Copy, Debug, PartialEq, Eq, Structural)]
pub enum InvalidFilterKind {
    /// The text does not have the shape of an index or a range, or a bound is
    /// not a positive number.
    Parse,
    /// Both bounds are valid, but the lower one is above the upper one.
    Range,
}

/// A filter expression that was turned down, with the reason.
#[derive(Debug)]
pub struct InvalidFilter {
    /// What is wrong with the expression.
    pub kind: InvalidFilterKind,
    /// The whole expression, as it was given.
    pub token: String,
}

/// What `kind` adds to a message after the quoted expression.
pub open spec fn reason(kind: InvalidFilterKind) -> Seq<char> {
    match kind {
        InvalidFilterKind::Parse => "': expected an index or a range, such as 3, 2:5, 2:, :5 or :"@,
        InvalidFilterKind::Range => "': the range ends before it starts"@,
    }
}

/// The message for an expression `token` that is invalid in the way `kind`.
pub open spec fn message_of(kind: InvalidFilterKind, token: Seq<char>) -> Seq<char> {
    "invalid filter '"@ + token + reason(kind)
}

impl InvalidFilter {
    /// One line that names the expression and says what is wrong with it.
    pub fn message(&self) -> (text: String)
        ensures
            text@ == message_of(self.kind, self.token@),
    {
        let mut text = "invalid filter '".to_owned();
        text.append(self.token.as_str());
        match self.kind {
            InvalidFilterKind::Parse => {
                text.append("': expected an index or a range, such as 3, 2:5, 2:, :5 or :");
            },
            InvalidFilterKind::Range => {
                text.append("': the range ends before it starts");
            },
        }
        text
    }
}

} // verus!
