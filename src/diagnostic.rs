//! Diagnostics: what a rule reports, and where in the source it points.
use vstd::prelude::*;

use crate::syntax::Span;

verus! {

/// A place in the source text.
#[derive(Debug, Clone, Copy, PartialEq, Eq, Structural)]
pub struct Position {
    /// The 0-indexed line index.
    pub line_index: usize,
    /// The 0-indexed column index, in characters.
    pub column_index: usize,
    /// The byte offset in the source text.
    pub byte_pos: usize,
}

impl Position {
    pub fn new(byte_pos: usize, line_index: usize, column_index: usize) -> (r: Position)
        ensures
            r == (Position { line_index, column_index, byte_pos }),
    {
        Position { line_index, column_index, byte_pos }
    }
}

/// The start and end of what a diagnostic points at.
#[derive(Debug, Clone, Copy, PartialEq, Eq, Structural)]
pub struct Range {
    pub end: Position,
    pub start: Position,
}

/// A character range within a snippet of source lines.
#[derive(Debug, Clone, Copy, PartialEq, Eq, Structural)]
pub struct CharRange {
    /// 0-indexed character index at which the range starts in the snippet.
    pub start_index: usize,
    /// 0-indexed character index at which the range ends in the snippet.
    pub end_index: usize,
}

impl CharRange {
    pub fn as_tuple(&self) -> (r: (usize, usize))
        ensures
            r == (self.start_index, self.end_index),
    {
        (self.start_index, self.end_index)
    }
}

/// One reported problem.
#[derive(Clone, Debug)]
pub struct LintDiagnostic {
    pub code: String,
    pub filename: String,
    pub hint: Option<String>,
    pub message: String,
    pub range: Range,
}

/// A diagnostic as values.
pub struct DiagnosticView {
    pub code: Seq<char>,
    pub filename: Seq<char>,
    pub hint: Option<Seq<char>>,
    pub message: Seq<char>,
    pub range: Range,
}

/// What a rule finds at a node, before the context places it in the file.
pub struct Finding {
    pub span: Span,
    pub code: Seq<char>,
    pub message: Seq<char>,
    pub hint: Option<Seq<char>>,
}

pub open spec fn hint_view(hint: Option<String>) -> Option<Seq<char>> {
    match hint {
        Some(h) => Some(h@),
        None => None,
    }
}

impl View for LintDiagnostic {
    type V = DiagnosticView;

    open spec fn view(&self) -> DiagnosticView {
        DiagnosticView {
            code: self.code@,
            filename: self.filename@,
            hint: hint_view(self.hint),
            message: self.message@,
            range: self.range,
        }
    }
}

} // verus!
