//! Byte spans, severities and diagnostics.
use vstd::prelude::*;

verus! {

/// Byte range in the source buffer.
#[derive(Debug, Clone, Copy, PartialEq, Eq, Structural)]
pub struct Span {
    pub start: usize,
    pub end: usize,
}

/// Diagnostic severity aligned with LSP conventions.
#[derive(Debug, Clone, Copy, PartialEq, Eq, Structural)]
pub enum Severity {
    Error,
    Warning,
    Info,
}

/// A syntax or structural issue in a netlist buffer.
#[derive(Debug, Clone, PartialEq, Eq)]
pub struct Diagnostic {
    pub message: String,
    pub severity: Severity,
    pub span: Span,
    pub code: Option<String>,
}

/// Mathematical view of a diagnostic.
pub struct DiagV {
    pub message: Seq<char>,
    pub severity: Severity,
    pub span: Span,
    pub code: Option<Seq<char>>,
}

impl View for Diagnostic {
    type V = DiagV;

    open spec fn view(&self) -> DiagV {
        DiagV {
            message: self.message@,
            severity: self.severity,
            span: self.span,
            code: match self.code {
                Some(c) => Some(c@),
                None => None,
            },
        }
    }
}

/// Views of a list of diagnostics.
pub open spec fn diags_view(d: Seq<Diagnostic>) -> Seq<DiagV> {
    d.map_values(|x: Diagnostic| x@)
}

impl Diagnostic {
    /// A copy of the diagnostic.
    pub fn clone_diag(&self) -> (d: Diagnostic)
        ensures
            d@ == self@,
    {
        Diagnostic {
            message: self.message.clone(),
            severity: self.severity,
            span: self.span,
            code: match &self.code {
                Some(c) => Some(c.clone()),
                None => None,
            },
        }
    }

    /// An error diagnostic without a code.
    pub fn error(message: String, span: Span) -> (d: Diagnostic)
        ensures
            d.message@ == message@,
            d.severity == Severity::Error,
            d.span == span,
            d.code is None,
    {
        Diagnostic { message, severity: Severity::Error, span, code: None }
    }
}

} // verus!
