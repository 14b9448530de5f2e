//! Diagnostics: severities, source ranges, labels and the diagnostic builder.

use vstd::prelude::*;
use crate::text::{push_str, string_from_chars};

verus! {

/// A range of byte offsets `start..end` in a source file.
#[derive(Debug, Clone, Copy, PartialEq, Eq, Hash, Structural)]
pub struct TextRange {
    pub start: u32,
    pub end: u32,
}

impl TextRange {
    /// The range `start..end`; the start may not lie after the end.
    pub fn new(start: u32, end: u32) -> (r: TextRange)
        requires
            start <= end,
        ensures
            r == (TextRange { start, end }),
    {
        TextRange { start, end }
    }

    /// The empty range at offset zero.
    pub fn empty() -> (r: TextRange)
        ensures
            r == (TextRange { start: 0, end: 0 }),
    {
        TextRange { start: 0, end: 0 }
    }
}

/// How serious a diagnostic is.
#[derive(Debug, Clone, Copy, PartialEq, Eq, Hash, Structural)]
pub enum Severity {
    Error,
    Warning,
    Lint,
}


/// A source range of a file, with an optional message.
#[derive(Debug)]
pub struct Label {
    /// The file the range belongs to.
    pub file: u32,
    pub range: TextRange,
    pub message: Option<String>,
}

impl Label {
    pub fn copy(&self) -> (r: Label)
        ensures
            r == *self,
    {
        Label {
            file: self.file,
            range: self.range,
            message: match &self.message {
                Some(m) => Some(m.clone()),
                None => None,
            },
        }
    }
}

/// A finished diagnostic.
#[derive(Debug)]
pub struct Diagnostic {
    pub severity: Severity,
    pub code: Option<String>,
    pub message: String,
    pub primary: Label,
    pub secondaries: Vec<Label>,
    pub notes: Vec<String>,
    pub helps: Vec<String>,
}

/// A diagnostic under construction; `build` finishes it.
#[must_use]
#[derive(Debug)]
pub struct Diag {
    pub inner: Diagnostic,
}

/// `a` and `b` agree on everything but secondaries, notes, helps and the primary message.
pub open spec fn same_core(a: Diagnostic, b: Diagnostic) -> bool {
    a.severity == b.severity && a.code == b.code && a.message == b.message && a.primary.file
        == b.primary.file && a.primary.range == b.primary.range
}

impl Diag {
    pub fn with_code(self, code: String) -> (r: Diag)
        ensures
            r.inner.code == Some(code),
            r.inner.severity == self.inner.severity && r.inner.message == self.inner.message
                && r.inner.primary == self.inner.primary && r.inner.secondaries@
                == self.inner.secondaries@ && r.inner.notes@ == self.inner.notes@
                && r.inner.helps@ == self.inner.helps@,
    {
        let mut d = self;
        d.inner.code = Some(code);
        d
    }

    pub fn with_secondary(self, file: u32, range: TextRange, message: Option<String>) -> (r: Diag)
        ensures
            same_core(r.inner, self.inner),
            r.inner.primary == self.inner.primary,
            r.inner.secondaries@ == self.inner.secondaries@.push(Label { file, range, message }),
            r.inner.notes@ == self.inner.notes@ && r.inner.helps@ == self.inner.helps@,
    {
        let mut d = self;
        d.inner.secondaries.push(Label { file, range, message });
        d
    }

    pub fn with_note(self, note: String) -> (r: Diag)
        ensures
            same_core(r.inner, self.inner),
            r.inner.primary == self.inner.primary,
            r.inner.secondaries@ == self.inner.secondaries@,
            r.inner.notes@ == self.inner.notes@.push(note),
            r.inner.helps@ == self.inner.helps@,
    {
        let mut d = self;
        d.inner.notes.push(note);
        d
    }

    pub fn with_help(self, help: String) -> (r: Diag)
        ensures
            same_core(r.inner, self.inner),
            r.inner.primary == self.inner.primary,
            r.inner.secondaries@ == self.inner.secondaries@,
            r.inner.notes@ == self.inner.notes@,
            r.inner.helps@ == self.inner.helps@.push(help),
    {
        let mut d = self;
        d.inner.helps.push(help);
        d
    }

    pub fn with_primary_message(self, message: String) -> (r: Diag)
        ensures
            same_core(r.inner, self.inner),
            r.inner.primary.message == Some(message),
            r.inner.secondaries@ == self.inner.secondaries@,
            r.inner.notes@ == self.inner.notes@,
            r.inner.helps@ == self.inner.helps@,
    {
        let mut d = self;
        d.inner.primary.message = Some(message);
        d
    }

    pub fn with_secondary_label(self, label: Label) -> (r: Diag)
        ensures
            same_core(r.inner, self.inner),
            r.inner.primary == self.inner.primary,
            r.inner.secondaries@ == self.inner.secondaries@.push(label),
            r.inner.notes@ == self.inner.notes@,
            r.inner.helps@ == self.inner.helps@,
    {
        let mut d = self;
        d.inner.secondaries.push(label);
        d
    }

    /// The finished diagnostic.
    pub fn build(self) -> (d: Diagnostic)
        ensures
            d == self.inner,
    {
        self.inner
    }

    /// Drops the diagnostic without reporting it.
    pub fn cancel(self) {
    }
}

impl Diagnostic {
    /// A diagnostic of the given severity whose primary label is `range` of `file`.
    pub fn builder(severity: Severity, message: &str, file: u32, range: TextRange) -> (d: Diag)
        ensures
            d.inner.severity == severity,
            d.inner.code is None,
            d.inner.message@ == message@,
            d.inner.primary.file == file,
            d.inner.primary.range == range,
            d.inner.primary.message is None,
            d.inner.secondaries@.len() == 0,
            d.inner.notes@.len() == 0,
            d.inner.helps@.len() == 0,
    {
        let text = message.to_string();
        proof {
            vstd::string::to_string_from_display_ensures_for_str(message, text);
        }
        Diag {
            inner: Diagnostic {
                severity,
                code: None,
                message: text,
                primary: Label { file, range, message: None },
                secondaries: Vec::new(),
                notes: Vec::new(),
                helps: Vec::new(),
            },
        }
    }

    pub fn error(message: &str, file: u32, range: TextRange) -> (d: Diag)
        ensures
            d.inner.severity == Severity::Error,
            d.inner.code is None,
            d.inner.message@ == message@,
            d.inner.primary.file == file,
            d.inner.primary.range == range,
            d.inner.primary.message is None,
            d.inner.secondaries@.len() == 0,
            d.inner.notes@.len() == 0,
            d.inner.helps@.len() == 0,
    {
        Diagnostic::builder(Severity::Error, message, file, range)
    }

    pub fn warning(message: &str, file: u32, range: TextRange) -> (d: Diag)
        ensures
            d.inner.severity == Severity::Warning,
            d.inner.code is None,
            d.inner.message@ == message@,
            d.inner.primary.file == file,
            d.inner.primary.range == range,
            d.inner.primary.message is None,
            d.inner.secondaries@.len() == 0,
            d.inner.notes@.len() == 0,
            d.inner.helps@.len() == 0,
    {
        Diagnostic::builder(Severity::Warning, message, file, range)
    }

    pub fn lint(message: &str, file: u32, range: TextRange) -> (d: Diag)
        ensures
            d.inner.severity == Severity::Lint,
            d.inner.code is None,
            d.inner.message@ == message@,
            d.inner.primary.file == file,
            d.inner.primary.range == range,
            d.inner.primary.message is None,
            d.inner.secondaries@.len() == 0,
            d.inner.notes@.len() == 0,
            d.inner.helps@.len() == 0,
    {
        Diagnostic::builder(Severity::Lint, message, file, range)
    }
}


/// The colors a rendered report draws with.
#[derive(Debug, Clone, Copy, PartialEq, Eq, Structural)]
pub enum ReportColor {
    Red,
    Yellow,
    Blue,
    Cyan,
}

/// How a severity is named in a report.
pub open spec fn severity_label(s: Severity) -> Seq<char> {
    match s {
        Severity::Error => "error"@,
        Severity::Warning => "warning"@,
        Severity::Lint => "lint"@,
    }
}

/// The color of the kind of a report of severity `s`.
pub open spec fn kind_color(s: Severity) -> ReportColor {
    match s {
        Severity::Error => ReportColor::Red,
        Severity::Warning => ReportColor::Yellow,
        Severity::Lint => ReportColor::Blue,
    }
}

/// The color of the primary label of a report of severity `s`.
pub open spec fn primary_color(s: Severity) -> ReportColor {
    match s {
        Severity::Error => ReportColor::Red,
        Severity::Warning => ReportColor::Yellow,
        Severity::Lint => ReportColor::Cyan,
    }
}

/// The kind of a report: its severity, with the code in brackets where it has one.
pub open spec fn kind_name(d: Diagnostic) -> Seq<char> {
    match d.code {
        Some(c) => severity_label(d.severity) + "["@ + c@ + "]"@,
        None => severity_label(d.severity),
    }
}

/// Lines joined as a report shows notes and helps: each after the first on
/// a new line, indented under the first.
pub open spec fn joined(lines: Seq<Seq<char>>) -> Seq<char>
    decreases lines.len(),
{
    if lines.len() == 0 {
        Seq::empty()
    } else if lines.len() == 1 {
        lines[0]
    } else {
        joined(lines.drop_last()) + "\n      "@ + lines.last()
    }
}

/// The name and color of the kind of report `d` renders as.
pub fn report_kind(d: &Diagnostic) -> (r: (String, ReportColor))
    ensures
        r.0@ == kind_name(*d),
        r.1 == kind_color(d.severity),
{
    let (label, color) = match d.severity {
        Severity::Error => ("error", ReportColor::Red),
        Severity::Warning => ("warning", ReportColor::Yellow),
        Severity::Lint => ("lint", ReportColor::Blue),
    };
    let mut out: Vec<char> = Vec::new();
    push_str(&mut out, label);
    match &d.code {
        Some(c) => {
            push_str(&mut out, "[");
            push_str(&mut out, c.as_str());
            push_str(&mut out, "]");
        },
        None => {},
    }
    assert(out@ =~= kind_name(*d));
    (string_from_chars(out.as_slice()), color)
}

/// The color of the primary label of a report of severity `s`.
pub fn primary_color_of(s: Severity) -> (r: ReportColor)
    ensures
        r == primary_color(s),
{
    match s {
        Severity::Error => ReportColor::Red,
        Severity::Warning => ReportColor::Yellow,
        Severity::Lint => ReportColor::Cyan,
    }
}

/// Notes or helps joined for a report; `None` where there are none.
pub fn join_lines(lines: &Vec<String>) -> (r: Option<String>)
    ensures
        lines@.len() == 0 ==> r is None,
        lines@.len() > 0 ==> (r matches Some(s) && s@ == joined(lines@.map_values(|l: String| l@))),
{
    if lines.len() == 0 {
        return None;
    }
    let ghost texts = lines@.map_values(|l: String| l@);
    let mut out: Vec<char> = Vec::new();
    push_str(&mut out, lines[0].as_str());
    let mut i: usize = 1;
    proof {
        assert(texts.take(1) =~= seq![texts[0]]);
    }
    while i < lines.len()
        invariant
            1 <= i <= lines@.len(),
            texts == lines@.map_values(|l: String| l@),
            out@ == joined(texts.take(i as int)),
        decreases lines.len() - i,
    {
        push_str(&mut out, "\n      ");
        push_str(&mut out, lines[i].as_str());
        proof {
            assert(texts.take(i + 1).drop_last() =~= texts.take(i as int));
            assert(texts.take(i + 1).last() == texts[i as int]);
        }
        i = i + 1;
    }
    proof {
        assert(texts.take(lines@.len() as int) =~= texts);
    }
    Some(string_from_chars(out.as_slice()))
}
} // verus!
