//! What the command-line linter prints, and the status it ends with.

use vstd::prelude::*;
use vstd::string::*;

use crate::check::{DiagFacts, Diagnostic, Severity};
use crate::document::Document;
use crate::lsp::{byte_range, law_range_round_trip, range_bytes, range_of, Range};
use crate::strings::{
    at_char, concat, decimal, lemma_views_empty, lemma_views_push, to_decimal, views,
};
use crate::syntax::Model;
use crate::text::position_of;

verus! {

pub open spec fn severity_name(s: Severity) -> Seq<char> {
    match s {
        Severity::Error => "error"@,
        Severity::Warning => "warning"@,
        Severity::Info => "info"@,
    }
}

/// The name of a severity.
pub fn sev_str(s: Severity) -> (r: &'static str)
    ensures
        r@ == severity_name(s),
{
    match s {
        Severity::Error => "error",
        Severity::Warning => "warning",
        Severity::Info => "info",
    }
}

/// One line per diagnostic: `file:line:column: severity: message [code]`, lines
/// and columns counted from 1.
pub open spec fn report_line(file: Seq<char>, m: Model, d: DiagFacts) -> Seq<char> {
    let (line, column) = position_of(m.text, d.start_byte);
    file + ":"@ + decimal((line + 1) as nat) + ":"@ + decimal((column + 1) as nat) + ": "@
        + severity_name(d.severity) + ": "@ + d.message + " ["@ + d.code + "]"@
}

/// The lines of a report; a single line where there is nothing to report.
pub open spec fn report_text(file: Seq<char>, m: Model, diags: Seq<DiagFacts>) -> Seq<Seq<char>> {
    if diags.len() == 0 {
        seq![file + ": no issues"@]
    } else {
        diags.map_values(|d: DiagFacts| report_line(file, m, d))
    }
}

fn diagnostic_line(file: &str, doc: &Document, d: &Diagnostic) -> (r: String)
    requires
        doc.wf(),
    ensures
        r@ == report_line(file@, doc@, d@),
{
    let (line, column) = doc.position_at(d.start_byte);
    let mut out = concat(file, ":");
    out.append(to_decimal(line as u64 + 1).as_str());
    out.append(":");
    out.append(to_decimal(column as u64 + 1).as_str());
    out.append(": ");
    out.append(sev_str(d.severity));
    out.append(": ");
    out.append(d.message.as_str());
    out.append(" [");
    out.append(d.code);
    out.append("]");
    out
}

/// The lines of the human-readable report.
pub fn report_lines(file: &str, doc: &Document, diagnostics: &Vec<Diagnostic>) -> (r: Vec<String>)
    requires
        doc.wf(),
    ensures
        views(r@) == report_text(file@, doc@, views(diagnostics@)),
{
    let mut out: Vec<String> = Vec::new();
    proof {
        lemma_views_empty::<String>();
    }
    if diagnostics.len() == 0 {
        let line = concat(file, ": no issues");
        proof {
            lemma_views_push(out@, line);
            assert(views(diagnostics@).len() == 0);
        }
        out.push(line);
        proof {
            assert(views(out@) =~= report_text(file@, doc@, views(diagnostics@)));
        }
        return out;
    }
    let ghost all = report_text(file@, doc@, views(diagnostics@));
    let mut k: usize = 0;
    proof {
        assert(views(diagnostics@).len() == diagnostics@.len());
        assert(all.take(0) =~= Seq::empty());
    }
    while k < diagnostics.len()
        invariant
            doc.wf(),
            k <= diagnostics@.len(),
            diagnostics@.len() > 0,
            all == report_text(file@, doc@, views(diagnostics@)),
            all.len() == diagnostics@.len(),
            views(out@) == all.take(k as int),
        decreases diagnostics@.len() - k,
    {
        let line = diagnostic_line(file, doc, &diagnostics[k]);
        proof {
            lemma_views_push(out@, line);
            assert(views(diagnostics@)[k as int] == diagnostics@[k as int]@);
            assert(all[k as int] == line@);
            assert(all.take(k as int).push(line@) =~= all.take(k + 1));
        }
        out.push(line);
        k = k + 1;
    }
    proof {
        assert(all.take(all.len() as int) =~= all);
    }
    out
}

/// One diagnostic of a structured report.
#[derive(Debug, Clone, PartialEq, Eq)]
pub struct DiagOut {
    pub severity: &'static str,
    pub code: &'static str,
    pub message: String,
    pub range: Range,
}

pub struct DiagOutFacts {
    pub severity: Seq<char>,
    pub code: Seq<char>,
    pub message: Seq<char>,
    pub range: Range,
}

impl View for DiagOut {
    type V = DiagOutFacts;

    open spec fn view(&self) -> DiagOutFacts {
        DiagOutFacts {
            severity: self.severity@,
            code: self.code@,
            message: self.message@,
            range: self.range,
        }
    }
}

/// A structured report on one file.
#[derive(Debug, Clone, PartialEq, Eq)]
pub struct Report {
    pub file: String,
    pub diagnostics: Vec<DiagOut>,
}

pub open spec fn diag_out(m: Model, d: DiagFacts) -> DiagOutFacts {
    DiagOutFacts {
        severity: severity_name(d.severity),
        code: d.code,
        message: d.message,
        range: range_of(m.text, d.start_byte, d.end_byte),
    }
}

/// A structured report says of a diagnostic what it is: its severity by name, its code and
/// message, and the range that stands for its bytes.
pub proof fn law_structured_reports(m: Model, d: DiagFacts)
    requires
        m.wf(),
        at_char(m.text, d.start_byte),
        at_char(m.text, d.end_byte),
    ensures
        ({
            let out = diag_out(m, d);
            &&& out.code == d.code
            &&& out.message == d.message
            &&& range_bytes(m.text, out.range) == (d.start_byte, d.end_byte)
            &&& d.severity == Severity::Error ==> out.severity == "error"@
            &&& d.severity == Severity::Warning ==> out.severity == "warning"@
            &&& d.severity == Severity::Info ==> out.severity == "info"@
        }),
{
    law_range_round_trip(m.text, d.start_byte, d.end_byte);
}

/// The structured report.
pub fn report(file: &str, doc: &Document, diagnostics: &Vec<Diagnostic>) -> (r: Report)
    requires
        doc.wf(),
    ensures
        r.file@ == file@,
        views(r.diagnostics@) == views(diagnostics@).map_values(
            |d: DiagFacts| diag_out(doc@, d),
        ),
{
    let ghost all = views(diagnostics@).map_values(|d: DiagFacts| diag_out(doc@, d));
    let mut out: Vec<DiagOut> = Vec::new();
    let mut k: usize = 0;
    proof {
        lemma_views_empty::<DiagOut>();
        assert(all.take(0) =~= Seq::empty());
    }
    while k < diagnostics.len()
        invariant
            doc.wf(),
            k <= diagnostics@.len(),
            all == views(diagnostics@).map_values(|d: DiagFacts| diag_out(doc@, d)),
            views(out@) == all.take(k as int),
        decreases diagnostics@.len() - k,
    {
        let d = &diagnostics[k];
        let one = DiagOut {
            severity: sev_str(d.severity),
            code: d.code,
            message: d.message.clone(),
            range: byte_range(doc, d.start_byte, d.end_byte),
        };
        proof {
            lemma_views_push(out@, one);
            assert(views(diagnostics@)[k as int] == d@);
            assert(all[k as int] == one@);
            assert(all.take(k as int).push(one@) =~= all.take(k + 1));
        }
        out.push(one);
        k = k + 1;
    }
    proof {
        assert(all.take(all.len() as int) =~= all);
    }
    Report { file: file.to_owned(), diagnostics: out }
}

/// A report has one line for each diagnostic, in order, with its file, its line and
/// column counted from 1, its severity, message and code; without diagnostics it has the
/// one line that says so.
pub proof fn law_report_has_a_line_for_each(
    file: Seq<char>,
    m: Model,
    diags: Seq<DiagFacts>,
    i: int,
)
    ensures
        diags.len() == 0 ==> report_text(file, m, diags) == seq![file + ": no issues"@],
        diags.len() > 0 ==> report_text(file, m, diags).len() == diags.len(),
        0 <= i < diags.len() ==> {
            let (line, column) = position_of(m.text, diags[i].start_byte);
            let label = match diags[i].severity {
                Severity::Error => "error"@,
                Severity::Warning => "warning"@,
                Severity::Info => "info"@,
            };
            report_text(file, m, diags)[i] == file + ":"@ + decimal((line + 1) as nat) + ":"@
                + decimal((column + 1) as nat) + ": "@ + label + ": "@ + diags[i].message + " ["@
                + diags[i].code + "]"@
        },
{
}

/// Some diagnostic is an error.
pub open spec fn has_error(diags: Seq<DiagFacts>) -> bool {
    exists|i: int| 0 <= i < diags.len() && (#[trigger] diags[i]).severity == Severity::Error
}

/// One error among the diagnostics is enough; warnings and information alone are not.
pub proof fn law_only_errors_fail(diags: Seq<DiagFacts>, i: int)
    ensures
        0 <= i < diags.len() && diags[i].severity == Severity::Error ==> has_error(diags),
        (forall|j: int|
            0 <= j < diags.len() ==> (#[trigger] diags[j]).severity == Severity::Warning
                || diags[j].severity == Severity::Info) ==> !has_error(diags),
{
}

/// The exit status: 0 = no errors, 1 = errors present.
pub fn exit_status(diagnostics: &Vec<Diagnostic>) -> (r: u8)
    ensures
        r == if has_error(views(diagnostics@)) {
            1u8
        } else {
            0u8
        },
{
    let ghost all = views(diagnostics@);
    let mut k: usize = 0;
    while k < diagnostics.len()
        invariant
            k <= diagnostics@.len(),
            all == views(diagnostics@),
            forall|i: int| 0 <= i < k ==> (#[trigger] all[i]).severity != Severity::Error,
        decreases diagnostics@.len() - k,
    {
        proof {
            assert(all[k as int] == diagnostics@[k as int]@);
        }
        if diagnostics[k].severity == Severity::Error {
            return 1;
        }
        k = k + 1;
    }
    0
}

}
