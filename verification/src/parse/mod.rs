pub mod basic;
pub mod body;
pub mod construct;
pub mod context;
pub mod literals;
pub mod numbers;
pub mod order;
pub mod source;
pub mod stmt;
pub mod strings;
pub mod trivia;
pub mod types;

use vstd::prelude::*;

use crate::model::SourceFile;

pub use context::{IndentOpener, ParseContext, ParseSnapshot};

verus! {

/// Error information for a failed parse.
///
/// All ranges are byte offsets `(start, end)` with `end` exclusive.
#[derive(Debug)]
pub struct ParseError {
    /// The range of source bytes consumed while trying to parse.
    pub consumed_range: (usize, usize),
    /// The error message at this level.
    pub message: Vec<char>,
    /// The specific range to underline; `consumed_range` when absent.
    pub error_range: Option<(usize, usize)>,
    /// The underlying cause, for nested errors.
    pub cause: Option<Box<ParseError>>,
}

impl ParseError {
    /// A new error without a cause.
    pub fn new(consumed_range: (usize, usize), message: Vec<char>) -> (r: ParseError)
        ensures
            r.consumed_range == consumed_range,
            r.message@ == message@,
            r.error_range is None,
            r.cause is None,
    {
        ParseError { consumed_range, message, error_range: None, cause: None }
    }

    /// An error with a specific range to underline.
    pub fn with_range(
        consumed_range: (usize, usize),
        message: Vec<char>,
        error_range: (usize, usize),
    ) -> (r: ParseError)
        ensures
            r.consumed_range == consumed_range,
            r.message@ == message@,
            r.error_range == Some(error_range),
            r.cause is None,
    {
        ParseError { consumed_range, message, error_range: Some(error_range), cause: None }
    }

    /// Wrap this error in one with more context; this error becomes its cause.
    pub fn wrap(self, consumed_range: (usize, usize), message: Vec<char>) -> (r: ParseError)
        ensures
            r.consumed_range == consumed_range,
            r.message@ == message@,
            r.error_range is None,
            r.cause == Some(Box::new(self)),
    {
        ParseError { consumed_range, message, error_range: None, cause: Some(Box::new(self)) }
    }
}

/// The result of parsing a source file.
#[derive(Debug)]
pub struct ParseResult {
    pub source_file: SourceFile,
    pub parse_errors: Vec<ParseError>,
    pub strict_mode_violations: Vec<ParseError>,
}

} // verus!
