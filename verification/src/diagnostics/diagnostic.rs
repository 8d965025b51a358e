//! The structured diagnostic and its builder methods.
use vstd::prelude::*;

use crate::diagnostics::error_code::{code_text, ErrorCode};
use crate::diagnostics::severity::{severity_text, Severity};
use crate::diagnostics::span::Span;
use crate::text::{push_decimal, push_str, string_from_chars};

verus! {

/// A message attached to a span of source text.
#[derive(Clone, Debug, PartialEq, Eq)]
pub struct Label {
    pub span: Span,
    pub message: String,
}

impl Label {
    pub fn new(span: Span, message: &str) -> (r: Self)
        ensures
            r.span == span,
            r.message@ == message@,
    {
        Label { span, message: String::from_str(message) }
    }
}

/// A compiler diagnostic: severity, optional code, message, source labels,
/// notes and a help text.
#[derive(Clone, Debug, PartialEq, Eq)]
pub struct Diagnostic {
    pub severity: Severity,
    pub code: Option<ErrorCode>,
    pub message: String,
    pub primary_label: Option<Label>,
    pub secondary_labels: Vec<Label>,
    pub notes: Vec<String>,
    pub help: Option<String>,
}

/// The one-line summary of a diagnostic:
/// `severity[code]: message (at line N)`.
pub open spec fn summary_text(d: Diagnostic) -> Seq<char> {
    let head = match d.code {
        Some(c) => severity_text(d.severity) + "["@ + code_text(c) + "]: "@ + d.message@,
        None => severity_text(d.severity) + ": "@ + d.message@,
    };
    match d.primary_label {
        Some(l) => head + " (at line "@ + crate::text::decimal(l.span.start.line as nat) + ")"@,
        None => head,
    }
}

impl Diagnostic {
    /// A diagnostic with a severity and message and nothing else.
    pub fn new(severity: Severity, message: &str) -> (r: Self)
        ensures
            r.severity == severity,
            r.message@ == message@,
            r.code is None,
            r.primary_label is None,
            r.secondary_labels@.len() == 0,
            r.notes@.len() == 0,
            r.help is None,
    {
        Diagnostic {
            severity,
            code: None,
            message: String::from_str(message),
            primary_label: None,
            secondary_labels: Vec::new(),
            notes: Vec::new(),
            help: None,
        }
    }

    pub fn error(message: &str) -> (r: Self)
        ensures
            r.severity == Severity::Error,
            r.message@ == message@,
            r.code is None,
            r.primary_label is None,
            r.secondary_labels@.len() == 0,
            r.notes@.len() == 0,
            r.help is None,
    {
        Self::new(Severity::Error, message)
    }

    pub fn warning(message: &str) -> (r: Self)
        ensures
            r.severity == Severity::Warning,
            r.message@ == message@,
            r.code is None,
            r.primary_label is None,
            r.secondary_labels@.len() == 0,
            r.notes@.len() == 0,
            r.help is None,
    {
        Self::new(Severity::Warning, message)
    }

    pub fn info(message: &str) -> (r: Self)
        ensures
            r.severity == Severity::Info,
            r.message@ == message@,
            r.code is None,
            r.primary_label is None,
            r.secondary_labels@.len() == 0,
            r.notes@.len() == 0,
            r.help is None,
    {
        Self::new(Severity::Info, message)
    }

    pub fn with_code(self, code: ErrorCode) -> (r: Self)
        ensures
            r == (Diagnostic { code: Some(code), ..self }),
    {
        Diagnostic { code: Some(code), ..self }
    }

    /// Sets the primary label.
    pub fn with_label(self, span: Span, message: &str) -> (r: Self)
        ensures
            r.primary_label matches Some(l) && l.span == span && l.message@ == message@,
            r.severity == self.severity,
            r.code == self.code,
            r.message == self.message,
            r.secondary_labels == self.secondary_labels,
            r.notes == self.notes,
            r.help == self.help,
    {
        Diagnostic { primary_label: Some(Label::new(span, message)), ..self }
    }

    /// Adds a secondary label after the ones already there.
    pub fn with_secondary_label(self, span: Span, message: &str) -> (r: Self)
        ensures
            r.secondary_labels@.len() == self.secondary_labels@.len() + 1,
            r.secondary_labels@.drop_last() == self.secondary_labels@,
            r.secondary_labels@.last().span == span,
            r.secondary_labels@.last().message@ == message@,
            r.severity == self.severity,
            r.code == self.code,
            r.message == self.message,
            r.primary_label == self.primary_label,
            r.notes == self.notes,
            r.help == self.help,
    {
        let mut d = self;
        d.secondary_labels.push(Label::new(span, message));
        d
    }

    /// Adds a note after the ones already there.
    pub fn with_note(self, note: &str) -> (r: Self)
        ensures
            r.notes@.len() == self.notes@.len() + 1,
            r.notes@.drop_last() == self.notes@,
            r.notes@.last()@ == note@,
            r.severity == self.severity,
            r.code == self.code,
            r.message == self.message,
            r.primary_label == self.primary_label,
            r.secondary_labels == self.secondary_labels,
            r.help == self.help,
    {
        let mut d = self;
        d.notes.push(String::from_str(note));
        d
    }

    /// Sets the help text.
    pub fn with_help(self, help: &str) -> (r: Self)
        ensures
            r.help matches Some(h) && h@ == help@,
            r.severity == self.severity,
            r.code == self.code,
            r.message == self.message,
            r.primary_label == self.primary_label,
            r.secondary_labels == self.secondary_labels,
            r.notes == self.notes,
    {
        Diagnostic { help: Some(String::from_str(help)), ..self }
    }

    /// The one-line summary of this diagnostic.
    pub fn summary(&self) -> (r: String)
        ensures
            r@ == summary_text(*self),
    {
        let mut out: Vec<char> = Vec::new();
        push_str(&mut out, self.severity.as_str());
        match self.code {
            Some(c) => {
                push_str(&mut out, "[");
                push_str(&mut out, c.as_str());
                push_str(&mut out, "]: ");
            },
            None => {
                push_str(&mut out, ": ");
            },
        }
        push_str(&mut out, self.message.as_str());
        match &self.primary_label {
            Some(l) => {
                push_str(&mut out, " (at line ");
                push_decimal(&mut out, l.span.start.line as u64);
                push_str(&mut out, ")");
            },
            None => {},
        }
        string_from_chars(out.as_slice())
    }
}

} // verus!
