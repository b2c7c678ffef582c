//! Structured compiler diagnostics and their plain-text rendering.
use crate::text::{chars_of, decimal, line_of, nth_line, push_chars, push_decimal, push_spaces, spaces};
use vstd::prelude::*;

verus! {

/// How serious a finding is.
#[derive(Debug, Clone, Copy, PartialEq, Eq, Structural)]
pub enum Severity {
    Error,
    Warning,
    Info,
}

/// A byte range in a source document together with its one-based line and column.
#[derive(Debug, Clone, Copy, PartialEq, Eq, Structural)]
pub struct SourceSpan {
    pub start: usize,
    pub end: usize,
    pub line: usize,
    pub column: usize,
}

/// A secondary location attached to a diagnostic.
#[derive(Debug, Clone, PartialEq, Eq)]
pub struct RelatedDiagnostic {
    pub message: String,
    pub path: Option<String>,
    pub span: Option<SourceSpan>,
}

/// One finding about a source document.
#[derive(Debug, Clone, PartialEq, Eq)]
pub struct Diagnostic {
    pub severity: Severity,
    pub code: String,
    pub message: String,
    pub file: String,
    pub span: Option<SourceSpan>,
    pub path: Option<String>,
    pub related: Vec<RelatedDiagnostic>,
    pub help: Option<String>,
}

/// Output format selected for diagnostics.
#[derive(Debug, Clone, Copy, PartialEq, Eq, Structural)]
pub enum DiagnosticFormat {
    Text,
    Json,
}

impl Diagnostic {
    /// An error with the given code and message about `file`, with no location yet.
    pub fn error(code: &str, message: &str, file: &str) -> (d: Diagnostic)
        ensures
            d.severity == Severity::Error,
            d.code@ == code@,
            d.message@ == message@,
            d.file@ == file@,
            d.span is None,
            d.path is None,
            d.related@.len() == 0,
            d.help is None,
    {
        Diagnostic {
            severity: Severity::Error,
            code: code.to_owned(),
            message: message.to_owned(),
            file: file.to_owned(),
            span: None,
            path: None,
            related: Vec::new(),
            help: None,
        }
    }

    /// A warning with the given code and message about `file`, with no location yet.
    pub fn warning(code: &str, message: &str, file: &str) -> (d: Diagnostic)
        ensures
            d.severity == Severity::Warning,
            d.code@ == code@,
            d.message@ == message@,
            d.file@ == file@,
            d.span is None,
            d.path is None,
            d.related@.len() == 0,
            d.help is None,
    {
        let mut d = Self::error(code, message, file);
        d.severity = Severity::Warning;
        d
    }

    /// The same diagnostic located at the JSON pointer `path`.
    pub fn at_path(self, path: &str) -> (d: Diagnostic)
        ensures
            d == (Diagnostic { path: d.path, ..self }),
            d.path matches Some(p) && p@ == path@,
    {
        let mut d = self;
        d.path = Some(path.to_owned());
        d
    }

    /// The same diagnostic with its source span replaced.
    pub fn with_span(self, span: Option<SourceSpan>) -> (d: Diagnostic)
        ensures
            d == (Diagnostic { span, ..self }),
    {
        let mut d = self;
        d.span = span;
        d
    }

    /// The same diagnostic with a help text.
    pub fn with_help(self, help: &str) -> (d: Diagnostic)
        ensures
            d == (Diagnostic { help: d.help, ..self }),
            d.help matches Some(h) && h@ == help@,
    {
        let mut d = self;
        d.help = Some(help.to_owned());
        d
    }
}

/// The word that opens a rendered diagnostic.
pub open spec fn level_text(severity: Severity) -> Seq<char> {
    match severity {
        Severity::Error => "error"@,
        Severity::Warning => "warning"@,
        Severity::Info => "info"@,
    }
}

/// `n - 1`, or zero for zero.
pub open spec fn before(n: nat) -> nat {
    if n == 0 {
        0
    } else {
        (n - 1) as nat
    }
}

/// The source excerpt shown under a located diagnostic: the line and a caret under the column.
pub open spec fn excerpt(span: SourceSpan, source: Option<Seq<char>>) -> Seq<char> {
    match source {
        Some(src) => match nth_line(src, before(span.line as nat)) {
            Some(line) => "   | "@ + line + "\n"@ + "   | "@ + spaces(before(span.column as nat))
                + "^\n"@,
            None => Seq::empty(),
        },
        None => Seq::empty(),
    }
}

/// The first line of a rendered diagnostic: level, code and message.
pub open spec fn head_text(d: Diagnostic) -> Seq<char> {
    level_text(d.severity) + "["@ + d.code@ + "]: "@ + d.message@ + "\n"@
}

/// The location lines: file, line and column, and the source excerpt when located.
pub open spec fn location_text(d: Diagnostic, source: Option<Seq<char>>) -> Seq<char> {
    match d.span {
        Some(span) => "  --> "@ + d.file@ + ":"@ + decimal(span.line as nat) + ":"@ + decimal(
            span.column as nat,
        ) + "\n"@ + excerpt(span, source),
        None => "  --> "@ + d.file@ + "\n"@,
    }
}

/// The trailing lines: JSON path and help, when present.
pub open spec fn tail_text(d: Diagnostic) -> Seq<char> {
    (match d.path {
        Some(p) => "   = path: "@ + p@ + "\n"@,
        None => Seq::empty(),
    }) + (match d.help {
        Some(h) => "   = help: "@ + h@ + "\n"@,
        None => Seq::empty(),
    })
}

/// The text block for one diagnostic.
pub open spec fn rendered(d: Diagnostic, source: Option<Seq<char>>) -> Seq<char> {
    head_text(d) + location_text(d, source) + tail_text(d)
}

/// The blocks of all diagnostics, in order.
pub open spec fn rendered_all(diags: Seq<Diagnostic>, source: Option<Seq<char>>) -> Seq<char>
    decreases diags.len(),
{
    if diags.len() == 0 {
        Seq::empty()
    } else {
        rendered_all(diags.drop_last(), source) + rendered(diags.last(), source)
    }
}

fn render_head(out: &mut String, d: &Diagnostic)
    ensures
        final(out)@ == old(out)@ + head_text(*d),
{
    let ghost start = out@;
    match d.severity {
        Severity::Error => out.append("error"),
        Severity::Warning => out.append("warning"),
        Severity::Info => out.append("info"),
    }
    out.append("[");
    out.append(d.code.as_str());
    out.append("]: ");
    out.append(d.message.as_str());
    out.append("\n");
    assert(out@ =~= start + head_text(*d));
}

fn render_excerpt(out: &mut String, span: SourceSpan, source: &Option<Vec<char>>)
    ensures
        final(out)@ == old(out)@ + excerpt(
            span,
            match source {
                Some(v) => Some(v@),
                None => None,
            },
        ),
{
    let ghost start = out@;
    match source {
        Some(chars) => {
            let line_index = if span.line == 0 { 0 } else { span.line - 1 };
            match line_of(chars.as_slice(), line_index) {
                Some(line) => {
                    out.append("   | ");
                    push_chars(out, line.as_slice());
                    out.append("\n");
                    out.append("   | ");
                    let col = if span.column == 0 { 0 } else { span.column - 1 };
                    push_spaces(out, col);
                    out.append("^\n");
                    assert(out@ =~= start + excerpt(span, Some(chars@)));
                },
                None => {
                    assert(out@ =~= start + excerpt(span, Some(chars@)));
                },
            }
        },
        None => {
            assert(out@ =~= start + excerpt(span, None));
        },
    }
}

fn render_location(out: &mut String, d: &Diagnostic, source: &Option<Vec<char>>)
    ensures
        final(out)@ == old(out)@ + location_text(
            *d,
            match source {
                Some(v) => Some(v@),
                None => None,
            },
        ),
{
    let ghost start = out@;
    let ghost src = match source {
        Some(v) => Some(v@),
        None => None,
    };
    match d.span {
        Some(span) => {
            out.append("  --> ");
            out.append(d.file.as_str());
            out.append(":");
            push_decimal(out, span.line);
            out.append(":");
            push_decimal(out, span.column);
            out.append("\n");
            render_excerpt(out, span, source);
            assert(out@ =~= start + location_text(*d, src));
        },
        None => {
            out.append("  --> ");
            out.append(d.file.as_str());
            out.append("\n");
            assert(out@ =~= start + location_text(*d, src));
        },
    }
}

fn render_tail(out: &mut String, d: &Diagnostic)
    ensures
        final(out)@ == old(out)@ + tail_text(*d),
{
    let ghost start = out@;
    match &d.path {
        Some(p) => {
            out.append("   = path: ");
            out.append(p.as_str());
            out.append("\n");
        },
        None => {},
    }
    let ghost pathed = out@;
    match &d.help {
        Some(h) => {
            out.append("   = help: ");
            out.append(h.as_str());
            out.append("\n");
        },
        None => {},
    }
    assert(out@ =~= start + tail_text(*d));
}

fn render_one(out: &mut String, d: &Diagnostic, source: &Option<Vec<char>>)
    ensures
        final(out)@ == old(out)@ + rendered(
            *d,
            match source {
                Some(v) => Some(v@),
                None => None,
            },
        ),
{
    let ghost start = out@;
    render_head(out, d);
    render_location(out, d, source);
    render_tail(out, d);
    assert(out@ =~= start + rendered(
        *d,
        match source {
            Some(v) => Some(v@),
            None => None,
        },
    ));
}

/// Renders diagnostics as human-readable text, quoting the offending source line when the
/// source text is supplied.
pub fn render_text(diags: &[Diagnostic], source: Option<&str>) -> (out: String)
    ensures
        out@ == rendered_all(
            diags@,
            match source {
                Some(s) => Some(s@),
                None => None,
            },
        ),
{
    let chars: Option<Vec<char>> = match source {
        Some(s) => Some(chars_of(s)),
        None => None,
    };
    let ghost src = match source {
        Some(s) => Some(s@),
        None => None,
    };
    let mut out = String::new();
    let mut i: usize = 0;
    while i < diags.len()
        invariant
            i <= diags.len(),
            src == match chars {
                Some(v) => Some(v@),
                None => None::<Seq<char>>,
            },
            out@ == rendered_all(diags@.take(i as int), src),
        decreases diags.len() - i,
    {
        render_one(&mut out, &diags[i], &chars);
        i += 1;
        assert(diags@.take(i as int).drop_last() =~= diags@.take((i - 1) as int));
    }
    assert(diags@.take(diags@.len() as int) =~= diags@);
    out
}

} // verus!

verus! {

/// The plain value of a related note.
pub struct RelatedV {
    pub message: Seq<char>,
    pub path: Option<Seq<char>>,
    pub span: Option<SourceSpan>,
}

/// The plain value of a diagnostic.
pub struct DiagV {
    pub severity: Severity,
    pub code: Seq<char>,
    pub message: Seq<char>,
    pub file: Seq<char>,
    pub span: Option<SourceSpan>,
    pub path: Option<Seq<char>>,
    pub related: Seq<RelatedV>,
    pub help: Option<Seq<char>>,
}

/// The view of an optional text.
pub open spec fn opt_view(t: Option<String>) -> Option<Seq<char>> {
    match t {
        Some(s) => Some(s@),
        None => None,
    }
}

impl View for RelatedDiagnostic {
    type V = RelatedV;

    open spec fn view(&self) -> RelatedV {
        RelatedV { message: self.message@, path: opt_view(self.path), span: self.span }
    }
}

impl View for Diagnostic {
    type V = DiagV;

    open spec fn view(&self) -> DiagV {
        DiagV {
            severity: self.severity,
            code: self.code@,
            message: self.message@,
            file: self.file@,
            span: self.span,
            path: opt_view(self.path),
            related: self.related@.map_values(|r: RelatedDiagnostic| r@),
            help: opt_view(self.help),
        }
    }
}

/// The plain values of diagnostics.
pub open spec fn diag_views(ds: Seq<Diagnostic>) -> Seq<DiagV> {
    ds.map_values(|d: Diagnostic| d@)
}

} // verus!
