//! The diagnostic taxonomy: structural errors produced by the block builder
//! and value-level errors produced by the entity mappers, each carrying an
//! exact source range.

use vstd::prelude::*;
use crate::TextRange;

verus! {

/// What went wrong, with the identifiers or message involved.
#[derive(Clone, Debug, PartialEq, Eq)]
pub enum ParseErrorType {
    /// A key appeared at a level where the specification forbids it.
    WrongKeyPosition(String, String),
    /// A key marked `once` appeared more than once among siblings; the level
    /// (0 = document root) is recorded.
    DuplicatedKey(String, u8),
    /// Non-blank trailing content after a single-line key.
    InvalidMultilineContent(String),
    /// Non-blank content with no open block to attach to.
    ContentOutOfKey,
    /// A required value was absent or empty.
    MissingRequiredValue(String),
    /// A value failed a key-specific check, with a message.
    ValidationError(String),
}

/// A diagnostic: a source range plus the kind of problem found there.
#[derive(Clone, Debug, PartialEq, Eq)]
pub struct ParseError {
    pub range: TextRange,
    pub some_file: Option<String>,
    pub error: ParseErrorType,
}

/// Model of a source range, over unbounded integers.
pub ghost struct RangeM {
    pub start_line: int,
    pub start_char: int,
    pub end_line: int,
    pub end_char: int,
}

/// Model of a `TextRange` value.
pub open spec fn range_view(r: TextRange) -> RangeM {
    RangeM {
        start_line: r.start.line as int,
        start_char: r.start.character as int,
        end_line: r.end.line as int,
        end_char: r.end.character as int,
    }
}

/// Model of a range covering one line from character 0 to `len`.
pub open spec fn rng_line_len(line: int, len: int) -> RangeM {
    RangeM { start_line: line, start_char: 0, end_line: line, end_char: len }
}

/// Model of a range on one line between two characters.
pub open spec fn rng_part(line: int, start: int, end: int) -> RangeM {
    RangeM { start_line: line, start_char: start, end_line: line, end_char: end }
}

/// Model of `ParseErrorType`, over character sequences.
pub ghost enum ErrTypeM {
    WrongKeyPosition(Seq<char>, Seq<char>),
    DuplicatedKey(Seq<char>, int),
    InvalidMultilineContent(Seq<char>),
    ContentOutOfKey,
    MissingRequiredValue(Seq<char>),
    ValidationError(Seq<char>),
}

/// Model of one diagnostic.
pub ghost struct ErrM {
    pub range: RangeM,
    pub some_file: Option<Seq<char>>,
    pub error: ErrTypeM,
}

/// Model of a `ParseErrorType` value.
pub open spec fn err_type_view(e: ParseErrorType) -> ErrTypeM {
    match e {
        ParseErrorType::WrongKeyPosition(id, parent) => ErrTypeM::WrongKeyPosition(id@, parent@),
        ParseErrorType::DuplicatedKey(id, level) => ErrTypeM::DuplicatedKey(id@, level as int),
        ParseErrorType::InvalidMultilineContent(id) => ErrTypeM::InvalidMultilineContent(id@),
        ParseErrorType::ContentOutOfKey => ErrTypeM::ContentOutOfKey,
        ParseErrorType::MissingRequiredValue(id) => ErrTypeM::MissingRequiredValue(id@),
        ParseErrorType::ValidationError(m) => ErrTypeM::ValidationError(m@),
    }
}

/// Model of one diagnostic value.
pub open spec fn err_view(e: ParseError) -> ErrM {
    ErrM {
        range: range_view(e.range),
        some_file: match e.some_file {
            Some(f) => Some(f@),
            None => None,
        },
        error: err_type_view(e.error),
    }
}

/// Models of a list of diagnostics.
pub open spec fn errs_view(v: Seq<ParseError>) -> Seq<ErrM> {
    v.map_values(|e: ParseError| err_view(e))
}

} // verus!
