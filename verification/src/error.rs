//! Errors.

use vstd::prelude::*;

verus! {

#[derive(Debug, PartialEq, Eq)]
pub enum LimboError {
    Constraint(String),
    Corrupt(String),
    InternalError(String),
    InvalidArgument(String),
    ParseError(String),
}

/// What an error says.
#[verifier::ext_equal]
pub enum ErrorView {
    Constraint(Seq<char>),
    Corrupt(Seq<char>),
    InternalError(Seq<char>),
    InvalidArgument(Seq<char>),
    ParseError(Seq<char>),
}

impl View for LimboError {
    type V = ErrorView;

    open spec fn view(&self) -> ErrorView {
        match self {
            LimboError::Constraint(m) => ErrorView::Constraint(m@),
            LimboError::Corrupt(m) => ErrorView::Corrupt(m@),
            LimboError::InternalError(m) => ErrorView::InternalError(m@),
            LimboError::InvalidArgument(m) => ErrorView::InvalidArgument(m@),
            LimboError::ParseError(m) => ErrorView::ParseError(m@),
        }
    }
}

impl LimboError {
    /// The message.
    pub fn message(&self) -> (r: String)
        ensures
            r@ == (match self@ {
                ErrorView::Constraint(m) => m,
                ErrorView::Corrupt(m) => m,
                ErrorView::InternalError(m) => m,
                ErrorView::InvalidArgument(m) => m,
                ErrorView::ParseError(m) => m,
            }),
    {
        match self {
            LimboError::Constraint(m) => m.clone(),
            LimboError::Corrupt(m) => m.clone(),
            LimboError::InternalError(m) => m.clone(),
            LimboError::InvalidArgument(m) => m.clone(),
            LimboError::ParseError(m) => m.clone(),
        }
    }
}

/// A parse error with a fixed message.
pub fn parse_error(message: &str) -> (r: LimboError)
    ensures
        r@ == ErrorView::ParseError(message@),
{
    LimboError::ParseError(message.to_owned())
}

} // verus!
