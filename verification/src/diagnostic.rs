//! Structured validation diagnostics.

use vstd::prelude::*;

use crate::outside::push_char;

verus! {

/// Severity of a source-data diagnostic.
#[derive(Debug, Clone, Copy, PartialEq, Eq, Structural)]
pub enum Severity {
    /// Invalid data that prevents generation.
    Error,
    /// Suspicious but supported data.
    Warning,
}

/// The lowercase name of a severity.
pub open spec fn severity_name(s: Severity) -> Seq<char> {
    match s {
        Severity::Error => "error"@,
        Severity::Warning => "warning"@,
    }
}

impl Severity {
    /// The lowercase name, as shown and serialized.
    pub fn as_str(self) -> (r: &'static str)
        ensures
            r@ == severity_name(self),
    {
        match self {
            Severity::Error => "error",
            Severity::Warning => "warning",
        }
    }
}

/// The decimal digit for `d < 10`.
pub open spec fn digit_char(d: nat) -> char {
    if d == 0 {
        '0'
    } else if d == 1 {
        '1'
    } else if d == 2 {
        '2'
    } else if d == 3 {
        '3'
    } else if d == 4 {
        '4'
    } else if d == 5 {
        '5'
    } else if d == 6 {
        '6'
    } else if d == 7 {
        '7'
    } else if d == 8 {
        '8'
    } else {
        '9'
    }
}

/// The decimal representation of `n`, without leading zeros.
pub open spec fn decimal(n: nat) -> Seq<char>
    decreases n,
{
    if n < 10 {
        seq![digit_char(n)]
    } else {
        decimal(n / 10).push(digit_char(n % 10))
    }
}

fn digit(d: usize) -> (c: char)
    requires
        d < 10,
    ensures
        c == digit_char(d as nat),
{
    if d == 0 {
        '0'
    } else if d == 1 {
        '1'
    } else if d == 2 {
        '2'
    } else if d == 3 {
        '3'
    } else if d == 4 {
        '4'
    } else if d == 5 {
        '5'
    } else if d == 6 {
        '6'
    } else if d == 7 {
        '7'
    } else if d == 8 {
        '8'
    } else {
        '9'
    }
}

/// The decimal representation of `n`.
pub fn decimal_text(n: usize) -> (r: String)
    ensures
        r@ == decimal(n as nat),
    decreases n,
{
    if n < 10 {
        let mut s = String::new();
        push_char(&mut s, digit(n));
        assert(s@ =~= seq![digit_char(n as nat)]);
        s
    } else {
        let mut s = decimal_text(n / 10);
        push_char(&mut s, digit(n % 10));
        s
    }
}

/// A stable, structured validation diagnostic.
#[derive(Debug, Clone, PartialEq, Eq)]
pub struct Diagnostic {
    /// Error or warning severity.
    pub severity: Severity,
    /// Stable machine-readable diagnostic code.
    pub code: &'static str,
    /// Source file associated with the diagnostic, as displayed.
    pub file: String,
    /// Application ID, when applicable.
    pub application: Option<String>,
    /// Field name, when applicable.
    pub field: Option<String>,
    /// One-based source line, when available.
    pub line: Option<usize>,
    /// One-based source column, when available.
    pub column: Option<usize>,
    /// Human-readable description with a corrective action where possible.
    pub message: String,
}

/// The plain content of a [`Diagnostic`].
pub struct DiagnosticView {
    pub severity: Severity,
    pub code: Seq<char>,
    pub file: Seq<char>,
    pub application: Option<Seq<char>>,
    pub field: Option<Seq<char>>,
    pub line: Option<usize>,
    pub column: Option<usize>,
    pub message: Seq<char>,
}

/// The view of an optional string.
pub open spec fn optional_text(o: Option<String>) -> Option<Seq<char>> {
    match o {
        Some(s) => Some(s@),
        None => None,
    }
}

impl View for Diagnostic {
    type V = DiagnosticView;

    open spec fn view(&self) -> DiagnosticView {
        DiagnosticView {
            severity: self.severity,
            code: self.code@,
            file: self.file@,
            application: optional_text(self.application),
            field: optional_text(self.field),
            line: self.line,
            column: self.column,
            message: self.message@,
        }
    }
}

/// A diagnostic with no application, field, or position.
pub open spec fn plain_diagnostic(
    severity: Severity,
    code: Seq<char>,
    file: Seq<char>,
    message: Seq<char>,
) -> DiagnosticView {
    DiagnosticView {
        severity,
        code,
        file,
        application: None,
        field: None,
        line: None,
        column: None,
        message,
    }
}

/// `d` with its application set.
pub open spec fn with_application(d: DiagnosticView, application: Seq<char>) -> DiagnosticView {
    DiagnosticView { application: Some(application), ..d }
}

/// `d` with its field set.
pub open spec fn with_field(d: DiagnosticView, field: Seq<char>) -> DiagnosticView {
    DiagnosticView { field: Some(field), ..d }
}

/// `d` with its position set.
pub open spec fn with_position(d: DiagnosticView, line: usize, column: usize) -> DiagnosticView {
    DiagnosticView { line: Some(line), column: Some(column), ..d }
}

/// The location prefix: the file, then `:line` and `:column` when known.
pub open spec fn location_text(d: DiagnosticView) -> Seq<char> {
    d.file + match d.line {
        Some(line) => ":"@ + decimal(line as nat) + match d.column {
            Some(column) => ":"@ + decimal(column as nat),
            None => Seq::empty(),
        },
        None => Seq::empty(),
    }
}

/// The trailing ` (application=…, field=…)` part, when either is known.
pub open spec fn context_text(d: DiagnosticView) -> Seq<char> {
    if d.application is Some || d.field is Some {
        " ("@ + match d.application {
            Some(a) => "application="@ + a,
            None => Seq::empty(),
        } + match d.field {
            Some(f) => if d.application is Some {
                ", "@ + "field="@ + f
            } else {
                "field="@ + f
            },
            None => Seq::empty(),
        } + ")"@
    } else {
        Seq::empty()
    }
}

/// The one-line human-readable form of a diagnostic.
pub open spec fn diagnostic_text(d: DiagnosticView) -> Seq<char> {
    location_text(d) + ": "@ + severity_name(d.severity) + "["@ + d.code + "]: "@ + d.message
        + context_text(d)
}

impl Diagnostic {
    /// A diagnostic with no application, field, or position.
    pub fn new(severity: Severity, code: &'static str, file: &str, message: String) -> (r:
        Diagnostic)
        ensures
            r@ == plain_diagnostic(severity, code@, file@, message@),
    {
        Diagnostic {
            severity,
            code,
            file: file.to_owned(),
            application: None,
            field: None,
            line: None,
            column: None,
            message,
        }
    }

    /// An error diagnostic.
    pub fn error(code: &'static str, file: &str, message: String) -> (r: Diagnostic)
        ensures
            r@ == plain_diagnostic(Severity::Error, code@, file@, message@),
    {
        Diagnostic::new(Severity::Error, code, file, message)
    }

    /// A warning diagnostic.
    pub fn warning(code: &'static str, file: &str, message: String) -> (r: Diagnostic)
        ensures
            r@ == plain_diagnostic(Severity::Warning, code@, file@, message@),
    {
        Diagnostic::new(Severity::Warning, code, file, message)
    }

    /// Attach the application ID.
    pub fn application(self, application: String) -> (r: Diagnostic)
        ensures
            r@ == with_application(self@, application@),
    {
        Diagnostic { application: Some(application), ..self }
    }

    /// Attach the field name.
    pub fn field(self, field: &str) -> (r: Diagnostic)
        ensures
            r@ == with_field(self@, field@),
    {
        Diagnostic { field: Some(field.to_owned()), ..self }
    }

    /// Attach a one-based source position.
    pub fn position(self, line: usize, column: usize) -> (r: Diagnostic)
        ensures
            r@ == with_position(self@, line, column),
    {
        Diagnostic { line: Some(line), column: Some(column), ..self }
    }

    /// Whether this is an error.
    pub fn is_error(&self) -> (r: bool)
        ensures
            r == (self.severity == Severity::Error),
    {
        match self.severity {
            Severity::Error => true,
            Severity::Warning => false,
        }
    }

    /// The one-line human-readable form:
    /// `file[:line[:column]]: severity[code]: message[ (application=…, field=…)]`.
    pub fn render(&self) -> (r: String)
        ensures
            r@ == diagnostic_text(self@),
    {
        let mut out = self.file.clone();
        let ghost d = self@;
        match self.line {
            Some(line) => {
                out.append(":");
                let digits = decimal_text(line);
                out.append(digits.as_str());
                match self.column {
                    Some(column) => {
                        out.append(":");
                        let digits = decimal_text(column);
                        out.append(digits.as_str());
                    },
                    None => {},
                }
            },
            None => {},
        }
        assert(out@ =~= location_text(d));
        out.append(": ");
        out.append(self.severity.as_str());
        out.append("[");
        out.append(self.code);
        out.append("]: ");
        out.append(self.message.as_str());
        let ghost head = out@;
        assert(head =~= location_text(d) + ": "@ + severity_name(d.severity) + "["@ + d.code
            + "]: "@ + d.message);
        if self.application.is_some() || self.field.is_some() {
            out.append(" (");
            match &self.application {
                Some(application) => {
                    out.append("application=");
                    out.append(application.as_str());
                },
                None => {},
            }
            match &self.field {
                Some(field) => {
                    if self.application.is_some() {
                        out.append(", ");
                    }
                    out.append("field=");
                    out.append(field.as_str());
                },
                None => {},
            }
            out.append(")");
        }
        assert(out@ =~= head + context_text(d));
        out
    }
}

} // verus!
