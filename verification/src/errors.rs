//! The failure taxonomy of a parse attempt.

use vstd::prelude::*;

verus! {

/// Spec-level counterpart of [`ParseError`], over character sequences.
pub ghost enum ParseErrorView {
    /// Fewer tokens were supplied than declared required positional slots.
    TooFewArguments,
    /// The offending token: it matches no flag and no positional slot is open.
    TooManyArguments(Seq<char>),
    /// The name of a value-accepting flag given with no usable following token
    /// and no default.
    MissingArgumentValue(Seq<char>),
    /// The name of a flag whose token matched twice in one parse.
    DuplicateArgument(Seq<char>),
    /// The names of every required flag left unsatisfied, in declaration
    /// order.
    RequiredArgumentMissing(Seq<Seq<char>>),
}

/// Why a parse attempt failed. Every variant is terminal for the attempt:
/// parsing is all-or-nothing per invocation.
pub enum ParseError {
    /// Fewer tokens were supplied than declared required positional slots.
    TooFewArguments,
    /// A token that matches no flag while no positional slot remains open.
    TooManyArguments(String),
    /// A value-accepting flag was given with no usable following token and no
    /// default.
    MissingArgumentValue(String),
    /// The same flag token matched twice in one parse.
    DuplicateArgument(String),
    /// Required flags unsatisfied after token consumption and environment
    /// fallback; all offenders are reported at once.
    RequiredArgumentMissing(Vec<String>),
}

impl View for ParseError {
    type V = ParseErrorView;

    open spec fn view(&self) -> ParseErrorView {
        match self {
            ParseError::TooFewArguments => ParseErrorView::TooFewArguments,
            ParseError::TooManyArguments(t) => ParseErrorView::TooManyArguments(t@),
            ParseError::MissingArgumentValue(n) => ParseErrorView::MissingArgumentValue(n@),
            ParseError::DuplicateArgument(n) => ParseErrorView::DuplicateArgument(n@),
            ParseError::RequiredArgumentMissing(ns) => ParseErrorView::RequiredArgumentMissing(
                ns.deep_view(),
            ),
        }
    }
}

} // verus!
