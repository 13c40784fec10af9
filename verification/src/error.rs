use vstd::prelude::*;
use crate::chars::{push_decimal, push_str, spec_decimal, string_from_chars};
use crate::span::{line_start_before, newlines_before, sat_succ, LineIndex, Span};

verus! {

/// Errors produced while parsing DirectedType source.
#[derive(Debug, Clone, PartialEq)]
pub enum ParseError {
    UnexpectedToken { expected: String, found: String, span: Span },
    UnexpectedEof { expected: String, span: Span },
    InvalidEscape { escape: String, span: Span },
    UnclosedDelimiter { delimiter: char, open_span: Span },
    LexError { span: Span },
    Custom { message: String, span: Span },
}

/// How a span is printed by `{:?}`: `Span { start: S, end: E }`.
pub open spec fn spec_span_debug(s: Span) -> Seq<char> {
    "Span { start: "@ + spec_decimal(s.start as nat) + ", end: "@ + spec_decimal(s.end as nat)
        + " }"@
}

pub fn push_span_debug(out: &mut Vec<char>, s: Span)
    ensures
        final(out)@ == old(out)@ + spec_span_debug(s),
{
    push_str(out, "Span { start: ");
    push_decimal(out, s.start);
    push_str(out, ", end: ");
    push_decimal(out, s.end);
    push_str(out, " }");
    assert(out@ =~= old(out)@ + spec_span_debug(s));
}

impl ParseError {
    pub open spec fn spec_span(&self) -> Span {
        match self {
            ParseError::UnexpectedToken { span, .. } => *span,
            ParseError::UnexpectedEof { span, .. } => *span,
            ParseError::InvalidEscape { span, .. } => *span,
            ParseError::LexError { span } => *span,
            ParseError::Custom { span, .. } => *span,
            ParseError::UnclosedDelimiter { open_span, .. } => *open_span,
        }
    }

    /// The source range the error points at (the opening delimiter for an
    /// unclosed one).
    pub fn span(&self) -> (s: Span)
        ensures
            s == self.spec_span(),
    {
        match self {
            ParseError::UnexpectedToken { span, .. } => *span,
            ParseError::UnexpectedEof { span, .. } => *span,
            ParseError::InvalidEscape { span, .. } => *span,
            ParseError::LexError { span } => *span,
            ParseError::Custom { span, .. } => *span,
            ParseError::UnclosedDelimiter { open_span, .. } => *open_span,
        }
    }

    /// The error's message.
    pub open spec fn spec_message(&self) -> Seq<char> {
        match self {
            ParseError::UnexpectedToken { expected, found, .. } => "Expected "@ + expected@
                + ", found "@ + found@,
            ParseError::UnexpectedEof { expected, .. } => "Unexpected end of input, expected "@
                + expected@,
            ParseError::InvalidEscape { escape, .. } => "Invalid escape sequence '"@ + escape@
                + "'"@,
            ParseError::UnclosedDelimiter { delimiter, open_span } => "Unclosed delimiter '"@
                + seq![*delimiter] + "', opened at "@ + spec_span_debug(*open_span),
            ParseError::LexError { .. } => "Invalid or unrecognized token"@,
            ParseError::Custom { message, .. } => message@,
        }
    }

    pub fn push_message(&self, out: &mut Vec<char>)
        ensures
            final(out)@ == old(out)@ + self.spec_message(),
    {
        match self {
            ParseError::UnexpectedToken { expected, found, .. } => {
                push_str(out, "Expected ");
                push_str(out, expected.as_str());
                push_str(out, ", found ");
                push_str(out, found.as_str());
            },
            ParseError::UnexpectedEof { expected, .. } => {
                push_str(out, "Unexpected end of input, expected ");
                push_str(out, expected.as_str());
            },
            ParseError::InvalidEscape { escape, .. } => {
                push_str(out, "Invalid escape sequence '");
                push_str(out, escape.as_str());
                push_str(out, "'");
            },
            ParseError::UnclosedDelimiter { delimiter, open_span } => {
                push_str(out, "Unclosed delimiter '");
                out.push(*delimiter);
                push_str(out, "', opened at ");
                push_span_debug(out, *open_span);
            },
            ParseError::LexError { .. } => {
                push_str(out, "Invalid or unrecognized token");
            },
            ParseError::Custom { message, .. } => {
                push_str(out, message.as_str());
            },
        }
        assert(out@ =~= old(out)@ + self.spec_message());
    }

    /// The error's message, as its `Display` shows it.
    pub fn message(&self) -> (s: String)
        ensures
            s@ == self.spec_message(),
    {
        let mut v: Vec<char> = Vec::new();
        self.push_message(&mut v);
        assert(v@ =~= self.spec_message());
        string_from_chars(v.as_slice())
    }

    /// Pairs the error with its source, for a message that names the line and
    /// column of the error.
    pub fn display_with_source<'a>(&'a self, source: &'a str) -> (f: FormattedParseError<'a>)
        ensures
            f.error == self,
            f.source == source,
    {
        FormattedParseError { error: self, source }
    }
}

/// A parse error together with the source it was found in.
pub struct FormattedParseError<'a> {
    pub error: &'a ParseError,
    pub source: &'a str,
}

impl<'a> FormattedParseError<'a> {
    /// `Parse error at line L, column C: MESSAGE`.
    pub open spec fn spec_text(&self) -> Seq<char> {
        let off = self.error.spec_span().start as int;
        "Parse error at line "@ + spec_decimal(sat_succ(newlines_before(self.source@, off)))
            + ", column "@ + spec_decimal(sat_succ((off - line_start_before(self.source@, off)) as nat))
            + ": "@ + self.error.spec_message()
    }

    pub fn to_text(&self) -> (s: String)
        ensures
            s@ == self.spec_text(),
    {
        let index = LineIndex::new(self.source);
        let span = self.error.span();
        let loc = index.location(span.start);
        let mut v: Vec<char> = Vec::new();
        push_str(&mut v, "Parse error at line ");
        push_decimal(&mut v, loc.line);
        push_str(&mut v, ", column ");
        push_decimal(&mut v, loc.column);
        push_str(&mut v, ": ");
        self.error.push_message(&mut v);
        assert(v@ =~= self.spec_text());
        string_from_chars(v.as_slice())
    }
}

} // verus!
