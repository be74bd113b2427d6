//! Diagnostics as an editor shows them.

use vstd::prelude::*;
use vstd::string::*;

use crate::check::{analyze, diagnostics_of, DiagFacts, Severity};
use crate::document::Document;
use crate::lsp::{byte_range, range_of, DiagnosticSeverity, EditorDiagFacts, EditorDiagnostic};
use crate::strings::{concat3, lemma_views_add, lemma_views_empty, lemma_views_push, views};
use crate::syntax::{end_of, lemma_below_end, preorder, subtree_end, Model};

verus! {

/// The ERROR and missing nodes from node `j` on, outermost ones only; subtrees
/// without errors are passed over.
pub open spec fn errors_from(m: Model, j: int) -> Seq<int>
    decreases m.nodes.len() - j,
    when 0 <= j
    via errors_decreases
{
    if j >= m.nodes.len() {
        Seq::empty()
    } else if m.nodes[j].error || m.nodes[j].missing {
        seq![j] + errors_from(m, end_of(m.nodes, j))
    } else if m.nodes[j].has_error {
        errors_from(m, j + 1)
    } else {
        errors_from(m, end_of(m.nodes, j))
    }
}

#[via_fn]
proof fn errors_decreases(m: Model, j: int) {
    if j < m.nodes.len() {
        lemma_below_end(m.nodes, m.nodes[j].depth, j + 1);
    }
}

/// The report on an ERROR or missing node.
pub open spec fn syntax_diag(m: Model, i: int) -> EditorDiagFacts {
    EditorDiagFacts {
        range: range_of(m.text, m.nodes[i].start_byte, m.nodes[i].end_byte),
        severity: Some(DiagnosticSeverity::Error),
        code: None,
        source: Some("pine-lsp"@),
        message: if m.nodes[i].missing {
            "Syntax error: missing `"@ + m.nodes[i].kind + "`"@
        } else {
            "Syntax error"@
        },
    }
}

pub open spec fn syntax_diags(m: Model) -> Seq<EditorDiagFacts> {
    errors_from(m, 0).map_values(|i: int| syntax_diag(m, i))
}

pub open spec fn severity_of(severity: Severity) -> DiagnosticSeverity {
    match severity {
        Severity::Error => DiagnosticSeverity::Error,
        Severity::Warning => DiagnosticSeverity::Warning,
        Severity::Info => DiagnosticSeverity::Information,
    }
}

pub open spec fn semantic_diag(m: Model, d: DiagFacts) -> EditorDiagFacts {
    EditorDiagFacts {
        range: range_of(m.text, d.start_byte, d.end_byte),
        severity: Some(severity_of(d.severity)),
        code: Some(d.code),
        source: Some("pine-lsp"@),
        message: d.message,
    }
}

pub open spec fn semantic_diags(m: Model) -> Seq<EditorDiagFacts> {
    diagnostics_of(m).map_values(|d: DiagFacts| semantic_diag(m, d))
}

/// A tree without errors has no syntax diagnostics.
pub proof fn law_clean_trees_have_no_syntax_errors(m: Model)
    requires
        m.wf(),
        !m.nodes[0].error && !m.nodes[0].missing && !m.nodes[0].has_error,
    ensures
        syntax_diags(m) == Seq::<EditorDiagFacts>::empty(),
{
    reveal(preorder);
    lemma_below_end(m.nodes, 0, 1);
    let end = end_of(m.nodes, 0);
    if end < m.nodes.len() {
        assert(m.nodes[end].depth >= 1);
    }
    assert(errors_from(m, end) =~= Seq::<int>::empty());
    assert(syntax_diags(m) =~= Seq::<EditorDiagFacts>::empty());
}

/// The nodes above an ERROR or missing node are marked so.
#[verifier::opaque]
pub open spec fn errors_are_marked(m: Model) -> bool {
    forall|i: int, j: int|
        #![trigger m.nodes[i], m.nodes[j]]
        0 <= i < j < end_of(m.nodes, i) && j < m.nodes.len() && (m.nodes[j].error
            || m.nodes[j].missing) ==> m.nodes[i].has_error
}

proof fn lemma_errors_found(m: Model, j: int, x: int)
    requires
        errors_are_marked(m),
        0 <= j <= x < m.nodes.len(),
        m.nodes[x].error || m.nodes[x].missing,
    ensures
        exists|k: int|
            #![trigger errors_from(m, j)[k]]
            0 <= k < errors_from(m, j).len() && errors_from(m, j)[k] <= x < end_of(
                m.nodes,
                errors_from(m, j)[k],
            ),
    decreases m.nodes.len() - j,
{
    lemma_below_end(m.nodes, m.nodes[j].depth, j + 1);
    let next = end_of(m.nodes, j);
    let list = errors_from(m, j);
    if m.nodes[j].error || m.nodes[j].missing {
        if x < next {
            assert(list[0] == j);
        } else {
            lemma_errors_found(m, next, x);
            let rest = errors_from(m, next);
            let k = choose|k: int|
                #![trigger rest[k]]
                0 <= k < rest.len() && rest[k] <= x < end_of(m.nodes, rest[k]);
            assert(list[k + 1] == rest[k]);
        }
    } else if m.nodes[j].has_error {
        lemma_errors_found(m, j + 1, x);
    } else {
        assert(next <= x) by {
            reveal(errors_are_marked);
            assert(!m.nodes[j].has_error);
            assert(m.nodes[x] == m.nodes[x]);
        }
        lemma_errors_found(m, next, x);
    }
}

/// Every ERROR or missing node is reported, or lies inside one that is.
pub proof fn law_syntax_errors_are_reported(m: Model, x: int)
    requires
        errors_are_marked(m),
        0 <= x < m.nodes.len(),
        m.nodes[x].error || m.nodes[x].missing,
    ensures
        exists|k: int|
            #![trigger errors_from(m, 0)[k]]
            0 <= k < errors_from(m, 0).len() && syntax_diags(m)[k] == syntax_diag(
                m,
                errors_from(m, 0)[k],
            ) && errors_from(m, 0)[k] <= x < end_of(m.nodes, errors_from(m, 0)[k]),
{
    lemma_errors_found(m, 0, x);
}

proof fn lemma_errors_from(m: Model, j: int)
    requires
        0 <= j <= m.nodes.len(),
    ensures
        forall|x: int|
            #![trigger errors_from(m, j)[x]]
            0 <= x < errors_from(m, j).len() ==> j <= errors_from(m, j)[x] < m.nodes.len() && (
            m.nodes[errors_from(m, j)[x]].error || m.nodes[errors_from(m, j)[x]].missing),
        forall|x: int, y: int|
            #![trigger errors_from(m, j)[x], errors_from(m, j)[y]]
            0 <= x < y < errors_from(m, j).len() ==> end_of(m.nodes, errors_from(m, j)[x])
                <= errors_from(m, j)[y],
    decreases m.nodes.len() - j,
{
    if j < m.nodes.len() {
        lemma_below_end(m.nodes, m.nodes[j].depth, j + 1);
        let list = errors_from(m, j);
        let next = end_of(m.nodes, j);
        if m.nodes[j].error || m.nodes[j].missing {
            lemma_errors_from(m, next);
            let rest = errors_from(m, next);
            assert(forall|x: int| 0 < x < list.len() ==> #[trigger] list[x] == rest[x - 1]);
        } else if m.nodes[j].has_error {
            lemma_errors_from(m, j + 1);
        } else {
            lemma_errors_from(m, next);
        }
    }
}

/// What is reported as a syntax error is an ERROR node, or a missing one by its kind,
/// each as an error on the node's bytes; none lies inside another.
pub proof fn law_syntax_reports_are_right(m: Model, x: int, y: int)
    requires
        0 <= x < y <= syntax_diags(m).len(),
    ensures
        exists|i: int|
            {
                &&& 0 <= i < m.nodes.len()
                &&& (#[trigger] m.nodes[i]).error || m.nodes[i].missing
                &&& syntax_diags(m)[x].range == range_of(
                    m.text,
                    m.nodes[i].start_byte,
                    m.nodes[i].end_byte,
                )
                &&& syntax_diags(m)[x].severity == Some(DiagnosticSeverity::Error)
                &&& syntax_diags(m)[x].code is None
                &&& syntax_diags(m)[x].source == Some("pine-lsp"@)
                &&& m.nodes[i].missing ==> syntax_diags(m)[x].message
                    == "Syntax error: missing `"@ + m.nodes[i].kind + "`"@
                &&& !m.nodes[i].missing ==> syntax_diags(m)[x].message == "Syntax error"@
            },
        y < syntax_diags(m).len() ==> end_of(m.nodes, errors_from(m, 0)[x]) <= errors_from(
            m,
            0,
        )[y],
{
    lemma_errors_from(m, 0);
    let i = errors_from(m, 0)[x];
    assert(syntax_diags(m)[x] == syntax_diag(m, i));
    assert(m.nodes[i].error || m.nodes[i].missing);
}

/// Every diagnostic of the checks is shown, in order, under its code and message, on
/// its bytes; errors as errors, warnings as warnings, the rest as information.
pub proof fn law_diagnostics_are_shown(m: Model, x: int)
    requires
        0 <= x < diagnostics_of(m).len(),
    ensures
        semantic_diags(m).len() == diagnostics_of(m).len(),
        ({
            let d = diagnostics_of(m)[x];
            let shown = semantic_diags(m)[x];
            &&& shown.range == range_of(m.text, d.start_byte, d.end_byte)
            &&& shown.code == Some(d.code)
            &&& shown.message == d.message
            &&& shown.source == Some("pine-lsp"@)
            &&& d.severity == Severity::Error ==> shown.severity == Some(DiagnosticSeverity::Error)
            &&& d.severity == Severity::Warning ==> shown.severity == Some(
                DiagnosticSeverity::Warning,
            )
            &&& d.severity == Severity::Info ==> shown.severity == Some(
                DiagnosticSeverity::Information,
            )
        }),
{
}

/// Diagnostics from ERROR / MISSING nodes.
pub fn syntax_diagnostics(doc: &Document) -> (r: Vec<EditorDiagnostic>)
    requires
        doc.wf(),
    ensures
        views(r@) == syntax_diags(doc@),
{
    let ghost m = doc@;
    let ghost mut seen: Seq<int> = Seq::empty();
    let mut out: Vec<EditorDiagnostic> = Vec::new();
    let mut j: usize = 0;
    proof {
        lemma_views_empty::<EditorDiagnostic>();
        assert(seen + errors_from(m, 0) =~= errors_from(m, 0));
        assert(seen.map_values(|i: int| syntax_diag(m, i)) =~= Seq::empty());
    }
    while j < doc.tree().len()
        invariant
            doc.wf(),
            m == doc@,
            j <= m.nodes.len(),
            errors_from(m, 0) == seen + errors_from(m, j as int),
            views(out@) == seen.map_values(|i: int| syntax_diag(m, i)),
        decreases m.nodes.len() - j,
    {
        let node = &doc.tree()[j];
        proof {
            assert(node@ == m.nodes[j as int]);
        }
        if node.error || node.missing {
            let message = if node.missing {
                concat3("Syntax error: missing `", node.kind.as_str(), "`")
            } else {
                "Syntax error".to_owned()
            };
            let one = EditorDiagnostic {
                range: byte_range(doc, node.start_byte, node.end_byte),
                severity: Some(DiagnosticSeverity::Error),
                code: None,
                source: Some("pine-lsp".to_owned()),
                message,
            };
            let next: usize = subtree_end(doc.tree(), j);
            proof {
                lemma_views_push(out@, one);
                let before = seen;
                seen = before.push(j as int);
                assert(before + errors_from(m, j as int) =~= seen + errors_from(m, next as int));
                assert(seen.map_values(|i: int| syntax_diag(m, i)) =~= before.map_values(
                    |i: int| syntax_diag(m, i),
                ).push(syntax_diag(m, j as int)));
            }
            out.push(one);
            j = next;
        } else if node.has_error {
            j = j + 1;
        } else {
            j = subtree_end(doc.tree(), j);
        }
    }
    proof {
        assert(seen + errors_from(m, j as int) =~= seen);
    }
    out
}

/// Semantic diagnostics, as an editor shows them.
pub fn semantic_diagnostics(doc: &Document) -> (r: Vec<EditorDiagnostic>)
    requires
        doc.wf(),
    ensures
        views(r@) == semantic_diags(doc@),
{
    let ghost m = doc@;
    let ghost all = semantic_diags(m);
    let diags = analyze(doc);
    let mut out: Vec<EditorDiagnostic> = Vec::new();
    let mut k: usize = 0;
    proof {
        lemma_views_empty::<EditorDiagnostic>();
        assert(all.take(0) =~= Seq::empty());
        assert(diags@.len() == views(diags@).len());
    }
    while k < diags.len()
        invariant
            doc.wf(),
            m == doc@,
            k <= diags@.len(),
            views(diags@) == diagnostics_of(m),
            all == semantic_diags(m),
            all.len() == diags@.len(),
            views(out@) == all.take(k as int),
        decreases diags@.len() - k,
    {
        let d = &diags[k];
        let severity = match d.severity {
            Severity::Error => DiagnosticSeverity::Error,
            Severity::Warning => DiagnosticSeverity::Warning,
            Severity::Info => DiagnosticSeverity::Information,
        };
        let one = EditorDiagnostic {
            range: byte_range(doc, d.start_byte, d.end_byte),
            severity: Some(severity),
            code: Some(d.code.to_owned()),
            source: Some("pine-lsp".to_owned()),
            message: d.message.clone(),
        };
        proof {
            assert(diagnostics_of(m)[k as int] == d@);
            lemma_views_push(out@, one);
            assert(all[k as int] == one@);
            assert(all.take(k as int).push(one@) =~= all.take(k + 1));
        }
        out.push(one);
        k = k + 1;
    }
    proof {
        assert(all.take(all.len() as int) =~= all);
    }
    out
}

/// All diagnostics for a document: syntax errors + semantic checks.
///
/// A missing `/// @source` directive is deliberately NOT diagnosed: published
/// imports legitimately omit it.
pub fn all_diagnostics(doc: &Document) -> (r: Vec<EditorDiagnostic>)
    requires
        doc.wf(),
    ensures
        views(r@) == syntax_diags(doc@) + semantic_diags(doc@),
{
    let mut diags = syntax_diagnostics(doc);
    let mut more = semantic_diagnostics(doc);
    proof {
        lemma_views_add(diags@, more@);
    }
    diags.append(&mut more);
    diags
}

}
