//! The ways in which a log file fails to parse.

use vstd::prelude::*;

verus! {

/// A field of a record.
#[derive(Clone, Copy, Debug, PartialEq, Eq, Structural)]
pub enum Field {
    Time,
    Number,
    Head,
    Tail,
    Height,
    Pos,
    CpuUsage,
    MemUsage,
    MemTotal,
    MemUsed,
    Direction,
}

/// Why a parse failed. `line` counts the lines of the file from 1.
#[derive(Debug)]
pub enum ParseError {
    /// The line was taken for a record but lacks the brackets that open it.
    MalformedLine { line: usize },
    /// The line gives no value for `field`.
    MissingField { line: usize, field: Field },
    /// The line gives `value` for `field`, which is not of the field's type.
    InvalidFieldValue { line: usize, field: Field, value: String },
    /// A part of a telemetry message is absent or holds no number.
    InvalidTelemetryField { line: usize, field: Field },
}

/// A `ParseError` with its text as a sequence of characters.
pub enum ParseErrorView {
    MalformedLine { line: usize },
    MissingField { line: usize, field: Field },
    InvalidFieldValue { line: usize, field: Field, value: Seq<char> },
    InvalidTelemetryField { line: usize, field: Field },
}

impl View for ParseError {
    type V = ParseErrorView;

    open spec fn view(&self) -> ParseErrorView {
        match *self {
            ParseError::MalformedLine { line } => ParseErrorView::MalformedLine { line },
            ParseError::MissingField { line, field } => ParseErrorView::MissingField {
                line,
                field,
            },
            ParseError::InvalidFieldValue { line, field, value } => {
                ParseErrorView::InvalidFieldValue { line, field, value: value@ }
            },
            ParseError::InvalidTelemetryField { line, field } => {
                ParseErrorView::InvalidTelemetryField { line, field }
            },
        }
    }
}

/// The view of what `r` holds, a value or an error.
pub open spec fn result_view<T: View>(r: Result<T, ParseError>) -> Result<T::V, ParseErrorView> {
    match r {
        Ok(x) => Ok(x@),
        Err(e) => Err(e@),
    }
}

/// The view of what `r` holds: a value, nothing, or an error.
pub open spec fn outcome_view<T: View>(r: Result<Option<T>, ParseError>) -> Result<
    Option<T::V>,
    ParseErrorView,
> {
    match r {
        Ok(Some(x)) => Ok(Some(x@)),
        Ok(None) => Ok(None),
        Err(e) => Err(e@),
    }
}

impl ParseError {
    /// The line on which the parse failed.
    pub open spec fn spec_line(&self) -> usize {
        match *self {
            ParseError::MalformedLine { line } => line,
            ParseError::MissingField { line, .. } => line,
            ParseError::InvalidFieldValue { line, .. } => line,
            ParseError::InvalidTelemetryField { line, .. } => line,
        }
    }

    /// The line on which the parse failed.
    #[verifier::when_used_as_spec(spec_line)]
    pub fn line(&self) -> (n: usize)
        ensures
            n == self.spec_line(),
    {
        match self {
            ParseError::MalformedLine { line } => *line,
            ParseError::MissingField { line, .. } => *line,
            ParseError::InvalidFieldValue { line, .. } => *line,
            ParseError::InvalidTelemetryField { line, .. } => *line,
        }
    }
}

} // verus!
