//! Structured diagnostics produced while reasoning.
use vstd::prelude::*;

verus! {

/// Severity of a diagnostic produced during reasoning.
#[derive(Clone, Copy, Debug, PartialEq, Eq, Structural)]
pub enum DiagnosticSeverity {
    Error,
    Warning,
    Info,
}

/// The lower-case name of a severity, as it is printed.
pub open spec fn severity_name(s: DiagnosticSeverity) -> Seq<char> {
    match s {
        DiagnosticSeverity::Error => "error"@,
        DiagnosticSeverity::Warning => "warning"@,
        DiagnosticSeverity::Info => "info"@,
    }
}

impl DiagnosticSeverity {
    /// The printed form of the severity (`error`, `warning` or `info`).
    pub fn to_string(&self) -> (s: String)
        ensures
            s@ == severity_name(*self),
    {
        match self {
            DiagnosticSeverity::Error => String::from_str("error"),
            DiagnosticSeverity::Warning => String::from_str("warning"),
            DiagnosticSeverity::Info => String::from_str("info"),
        }
    }
}

} // verus!

verus! {

/// The stable diagnostic code of an OWL 2 RL rule name; rules without a code
/// of their own map to `OWLRL.UNKNOWN`.
pub open spec fn rule_code(rule: Seq<char>) -> Seq<char> {
    if rule == "cax-dw"@ {
        "OWLRL.CAX_DW"@
    } else if rule == "prp-pdw"@ {
        "OWLRL.PRP_PDW"@
    } else if rule == "cls-nothing2"@ {
        "OWLRL.CLS_NOTHING"@
    } else if rule == "prp-asyp"@ {
        "OWLRL.PRP_ASYP"@
    } else if rule == "prp-irp"@ {
        "OWLRL.PRP_IRP"@
    } else if rule == "cls-com"@ {
        "OWLRL.CLS_COM"@
    } else {
        "OWLRL.UNKNOWN"@
    }
}

/// Equality of two string slices by their characters.
pub fn str_eq(a: &str, b: &str) -> (r: bool)
    ensures
        r == (a@ == b@),
{
    let x = String::from_str(a);
    let y = String::from_str(b);
    x == y
}

/// A structured diagnostic: a rule violation found while reasoning.
pub struct ReasoningError {
    /// Stable diagnostic code (e.g. `OWLRL.CAX_DW`).
    code: String,
    /// The OWL 2 RL rule that produced the violation (e.g. `cax-dw`).
    rule: String,
    /// Severity of the diagnostic.
    severity: DiagnosticSeverity,
    /// A human-readable message.
    message: String,
}

/// The abstract content of a diagnostic.
pub struct ReasoningErrorView {
    pub code: Seq<char>,
    pub rule: Seq<char>,
    pub severity: DiagnosticSeverity,
    pub message: Seq<char>,
}

impl View for ReasoningError {
    type V = ReasoningErrorView;

    closed spec fn view(&self) -> ReasoningErrorView {
        ReasoningErrorView {
            code: self.code@,
            rule: self.rule@,
            severity: self.severity,
            message: self.message@,
        }
    }
}

/// The diagnostic that `ReasoningError::new` builds for a rule and a message.
pub open spec fn new_error_view(rule: Seq<char>, message: Seq<char>) -> ReasoningErrorView {
    ReasoningErrorView {
        code: rule_code(rule),
        rule: rule,
        severity: DiagnosticSeverity::Error,
        message: message,
    }
}

/// The printed form of a diagnostic: `severity[rule]: message`.
pub open spec fn error_display(e: ReasoningErrorView) -> Seq<char> {
    severity_name(e.severity) + "["@ + e.rule + "]: "@ + e.message
}

impl ReasoningError {
    /// Creates an error-severity diagnostic for `rule` whose code is looked up
    /// from the rule name.
    pub fn new(rule: String, message: String) -> (e: ReasoningError)
        ensures
            e@ == new_error_view(rule@, message@),
    {
        let r = rule.as_str();
        let code = if str_eq(r, "cax-dw") {
            String::from_str("OWLRL.CAX_DW")
        } else if str_eq(r, "prp-pdw") {
            String::from_str("OWLRL.PRP_PDW")
        } else if str_eq(r, "cls-nothing2") {
            String::from_str("OWLRL.CLS_NOTHING")
        } else if str_eq(r, "prp-asyp") {
            String::from_str("OWLRL.PRP_ASYP")
        } else if str_eq(r, "prp-irp") {
            String::from_str("OWLRL.PRP_IRP")
        } else if str_eq(r, "cls-com") {
            String::from_str("OWLRL.CLS_COM")
        } else {
            String::from_str("OWLRL.UNKNOWN")
        };
        ReasoningError { code, rule, severity: DiagnosticSeverity::Error, message }
    }

    pub fn code(&self) -> (r: &str)
        ensures
            r@ == self@.code,
    {
        self.code.as_str()
    }

    pub fn rule(&self) -> (r: &str)
        ensures
            r@ == self@.rule,
    {
        self.rule.as_str()
    }

    pub fn severity(&self) -> (r: &DiagnosticSeverity)
        ensures
            *r == self@.severity,
    {
        &self.severity
    }

    pub fn message(&self) -> (r: &str)
        ensures
            r@ == self@.message,
    {
        self.message.as_str()
    }

    /// The printed form of the diagnostic: `severity[rule]: message`.
    pub fn to_string(&self) -> (s: String)
        ensures
            s@ == error_display(self@),
    {
        let mut s = self.severity.to_string();
        s.append("[");
        s.append(self.rule.as_str());
        s.append("]: ");
        s.append(self.message.as_str());
        s
    }
}

/// Options that govern how diagnostics are collected.
#[derive(Clone, Copy, Debug)]
pub struct ReasonerOptions {
    /// Whether to collect diagnostics during reasoning.
    pub collect_diagnostics: bool,
    /// Maximum number of diagnostics to retain (`None` = unlimited).
    pub max_diagnostics: Option<usize>,
    /// Deduplicate diagnostics by (code, message).
    pub dedupe: bool,
}

impl Default for ReasonerOptions {
    fn default() -> (o: ReasonerOptions)
        ensures
            o.collect_diagnostics,
            o.max_diagnostics is None,
            o.dedupe,
    {
        ReasonerOptions { collect_diagnostics: true, max_diagnostics: None, dedupe: true }
    }
}

} // verus!
