//! Where an element stands in the parsed source.
use std::borrow::Cow;
use vstd::prelude::*;

verus! {

/// Span of the information in the parsed source.
#[derive(Debug, Default, PartialEq)]
pub struct SourceSpan<'a> {
    pub text: Cow<'a, str>,
    pub start_line: usize,
    pub end_line: usize,
    pub start_column: usize,
    pub end_column: usize,
}

impl<'a> SourceSpan<'a> {
    pub fn new(text: &'a str, start_line: usize, end_line: usize, start_column: usize, end_column: usize) -> (s: Self)
        ensures
            s.text@ == text@,
            s.start_line == start_line,
            s.end_line == end_line,
            s.start_column == start_column,
            s.end_column == end_column,
    {
        Self { text: Cow::Borrowed(text), start_line, end_line, start_column, end_column }
    }
}

impl<'a> Clone for SourceSpan<'a> {
    fn clone(&self) -> (c: Self)
        ensures
            c.text@ == self.text@,
            c.start_line == self.start_line,
            c.end_line == self.end_line,
            c.start_column == self.start_column,
            c.end_column == self.end_column,
    {
        let text = match &self.text {
            Cow::Borrowed(b) => Cow::Borrowed(*b),
            Cow::Owned(o) => Cow::Owned(o.clone()),
        };
        SourceSpan {
            text,
            start_line: self.start_line,
            end_line: self.end_line,
            start_column: self.start_column,
            end_column: self.end_column,
        }
    }
}

} // verus!
