//! Semantic analysis for Pine v6.
//!
//! Diagnostics are byte-ranged and editor-free, so that the command line, the
//! language server and the tool server can all use them.

use vstd::prelude::*;
use vstd::string::*;

use crate::document::Document;
use crate::logiclint;
use crate::logiclint::{
    all_at_nodes, is_at_node, law_an_exit_is_enough, law_lint_codes, law_lints_are_at_nodes,
    lints_of,
};
use crate::sorting::{
    in_order, insert_after, is_order, law_sort_orders, lemma_insert_at, stable_sort,
};
use crate::strings::{
    at_char, byte_len, concat3, contains_text, law_contained_text, lemma_byte_len_push, lemma_byte_len_take,
    lemma_views_empty, lemma_views_push, lemma_views_remove_first, str_contains, str_eq, str_len,
    utf8_len, views,
};
use crate::symbols::{
    all_defs, all_refs, call_name, definitions, law_definitions_are_at_identifiers,
    law_references_are_exact, numbers, references, span_views, spells_freely, DefFacts, SymbolKind,
};
use crate::syntax::{covers, lemma_filter_ascends, lemma_filter_members, Model};

verus! {

#[derive(Debug, Clone, Copy, PartialEq, Eq, Structural)]
pub enum Severity {
    Error,
    Warning,
    Info,
}

#[derive(Debug, Clone)]
pub struct Diagnostic {
    pub start_byte: usize,
    pub end_byte: usize,
    pub severity: Severity,
    /// Stable machine-readable code, e.g. `"unused-variable"`.
    pub code: &'static str,
    pub message: String,
}

/// What a [`Diagnostic`] says.
pub struct DiagFacts {
    pub start_byte: int,
    pub end_byte: int,
    pub severity: Severity,
    pub code: Seq<char>,
    pub message: Seq<char>,
}

impl View for Diagnostic {
    type V = DiagFacts;

    open spec fn view(&self) -> DiagFacts {
        DiagFacts {
            start_byte: self.start_byte as int,
            end_byte: self.end_byte as int,
            severity: self.severity,
            code: self.code@,
            message: self.message@,
        }
    }
}

// ---------------------------------------------------------------------------
// What is reported
// ---------------------------------------------------------------------------

/// The length in bytes of the first line, its line break left out.
pub open spec fn first_line_len(t: Seq<char>) -> int
    decreases t.len(),
{
    if t.len() == 0 {
        0
    } else if t.drop_last().contains('\n') {
        first_line_len(t.drop_last())
    } else if t.last() == '\n' {
        byte_len(t.drop_last()) as int
    } else {
        byte_len(t) as int
    }
}

/// A text without a version directive is reported on its first line.
pub open spec fn version_diags(t: Seq<char>) -> Seq<DiagFacts> {
    if contains_text(t, "@version="@) {
        Seq::empty()
    } else {
        seq![
            DiagFacts {
                start_byte: 0,
                end_byte: first_line_len(t),
                severity: Severity::Warning,
                code: "missing-version"@,
                message: "Missing `//@version=6` directive"@,
            },
        ]
    }
}

/// A variable whose only occurrence is its definition; `_` is never one.
pub open spec fn is_unused(m: Model, def: DefFacts) -> bool {
    &&& def.kind == SymbolKind::Variable
    &&& def.name != "_"@
    &&& all_refs(m, def.name).len() <= 1
}

pub open spec fn unused_diag(def: DefFacts) -> DiagFacts {
    DiagFacts {
        start_byte: def.start_byte,
        end_byte: def.end_byte,
        severity: Severity::Warning,
        code: "unused-variable"@,
        message: "Variable `"@ + def.name + "` is declared but never used"@,
    }
}

/// One report for each unused variable among the first `k` definitions.
pub open spec fn unused_upto(m: Model, k: int) -> Seq<DiagFacts>
    decreases k,
{
    if k <= 0 {
        Seq::empty()
    } else {
        let def = all_defs(m)[k - 1];
        if is_unused(m, def) {
            unused_upto(m, k - 1).push(unused_diag(def))
        } else {
            unused_upto(m, k - 1)
        }
    }
}

/// The reports of all checks, check by check.
pub open spec fn unsorted_diags(m: Model) -> Seq<DiagFacts> {
    version_diags(m.text) + unused_upto(m, all_defs(m).len() as int) + lints_of(m)
}

/// Reports come in the order of their bytes.
pub open spec fn span_order() -> spec_fn(DiagFacts, DiagFacts) -> bool {
    |a: DiagFacts, b: DiagFacts|
        a.start_byte < b.start_byte || (a.start_byte == b.start_byte && a.end_byte <= b.end_byte)
}

/// All reports of a document, by position.
pub open spec fn diagnostics_of(m: Model) -> Seq<DiagFacts> {
    stable_sort(unsorted_diags(m), span_order())
}

// ---------------------------------------------------------------------------
// Laws
// ---------------------------------------------------------------------------

/// The diagnostics are the reports of the checks, all of them and no others, and
/// they come by position.
pub proof fn law_diagnostics_are_sorted(m: Model)
    ensures
        in_order(diagnostics_of(m), span_order()),
        diagnostics_of(m).to_multiset() == unsorted_diags(m).to_multiset(),
        diagnostics_of(m).len() == unsorted_diags(m).len(),
{
    assert(is_order(span_order()));
    law_sort_orders(unsorted_diags(m), span_order());
}

proof fn lemma_first_line(t: Seq<char>)
    ensures
        at_char(t, first_line_len(t)),
        0 <= first_line_len(t) <= byte_len(t),
    decreases t.len(),
{
    assert(t.take(t.len() as int) =~= t);
    if t.len() == 0 {
        assert(byte_len(t.take(0)) == 0);
    } else {
        let init = t.drop_last();
        assert(t.take(t.len() - 1) =~= init);
        lemma_byte_len_take(t, t.len() - 1, t.len() as int);
        if init.contains('\n') {
            lemma_first_line(init);
            let k = choose|k: int|
                0 <= k <= init.len() && first_line_len(init) == #[trigger] byte_len(init.take(k));
            assert(init.take(k) =~= t.take(k));
        } else {
            assert(byte_len(init) == byte_len(t.take(t.len() - 1)));
            assert(byte_len(t) == byte_len(t.take(t.len() as int)));
        }
    }
}

/// The report covers characters of the text.
pub open spec fn is_on_text(t: Seq<char>, d: DiagFacts) -> bool {
    0 <= d.start_byte <= d.end_byte && at_char(t, d.start_byte) && at_char(t, d.end_byte)
}

proof fn lemma_unused_at_nodes(m: Model, k: int)
    requires
        0 <= k <= all_defs(m).len(),
    ensures
        all_at_nodes(m, unused_upto(m, k)),
    decreases k,
{
    if k > 0 {
        lemma_unused_at_nodes(m, k - 1);
        law_definitions_are_at_identifiers(m, k - 1);
        assert(is_at_node(m, unused_diag(all_defs(m)[k - 1])));
    }
}

proof fn lemma_reports_on_text(m: Model, x: int)
    requires
        m.wf(),
        0 <= x < unsorted_diags(m).len(),
    ensures
        is_on_text(m.text, unsorted_diags(m)[x]),
{
    let t = m.text;
    let version = version_diags(t);
    let unused = unused_upto(m, all_defs(m).len() as int);
    let lints = lints_of(m);
    let d = unsorted_diags(m)[x];
    if x < version.len() {
        assert(d == version[x]);
        lemma_first_line(t);
        assert(t.take(0) =~= Seq::<char>::empty());
        assert(byte_len(t.take(0)) == 0);
    } else {
        lemma_unused_at_nodes(m, all_defs(m).len() as int);
        law_lints_are_at_nodes(m);
        if x < version.len() + unused.len() {
            assert(d == unused[x - version.len()]);
        } else {
            assert(d == lints[x - version.len() - unused.len()]);
        }
        assert(is_at_node(m, d));
        let i = choose|i: int|
            0 <= i < m.nodes.len() && d.start_byte == (#[trigger] m.nodes[i]).start_byte
                && d.end_byte == m.nodes[i].end_byte;
        reveal(covers);
        assert(covers(t, m.nodes[i]));
    }
}

/// Every diagnostic covers characters of the text.
pub proof fn law_diagnostics_are_on_text(m: Model, x: int)
    requires
        m.wf(),
        0 <= x < diagnostics_of(m).len(),
    ensures
        is_on_text(m.text, diagnostics_of(m)[x]),
{
    broadcast use vstd::seq_lib::group_to_multiset_ensures;

    law_diagnostics_are_sorted(m);
    let d = diagnostics_of(m)[x];
    assert(diagnostics_of(m).to_multiset().contains(d));
    assert(unsorted_diags(m).contains(d));
    let y = choose|y: int| 0 <= y < unsorted_diags(m).len() && unsorted_diags(m)[y] == d;
    lemma_reports_on_text(m, y);
}

/// Only definitions of the document are reported as unused, so a builtin never
/// is, and neither is a variable that occurs a second time.
pub proof fn law_unused_are_definitions(m: Model, k: int, x: int)
    requires
        0 <= k <= all_defs(m).len(),
        0 <= x < unused_upto(m, k).len(),
    ensures
        exists|i: int|
            0 <= i < k && unused_upto(m, k)[x] == unused_diag(#[trigger] all_defs(m)[i])
                && all_defs(m)[i].kind == SymbolKind::Variable && all_refs(
                m,
                all_defs(m)[i].name,
            ).len() <= 1,
    decreases k,
{
    let before = unused_upto(m, k - 1);
    if x < before.len() {
        law_unused_are_definitions(m, k - 1, x);
        assert(unused_upto(m, k)[x] == before[x]);
    } else {
        assert(unused_upto(m, k)[x] == unused_diag(all_defs(m)[k - 1]));
    }
}

/// A report is among the diagnostics where one of the checks makes it, and only there.
pub proof fn law_diagnostics_are_the_reports(m: Model, d: DiagFacts)
    ensures
        diagnostics_of(m).contains(d) <==> (version_diags(m.text).contains(d) || unused_upto(
            m,
            all_defs(m).len() as int,
        ).contains(d) || lints_of(m).contains(d)),
{
    broadcast use vstd::seq_lib::group_to_multiset_ensures;

    law_diagnostics_are_sorted(m);
    let version = version_diags(m.text);
    let unused = unused_upto(m, all_defs(m).len() as int);
    let lints = lints_of(m);
    let all = unsorted_diags(m);
    assert(diagnostics_of(m).contains(d) <==> diagnostics_of(m).to_multiset().contains(d));
    assert(all.contains(d) <==> all.to_multiset().contains(d));
    if all.contains(d) {
        let x = choose|x: int| 0 <= x < all.len() && all[x] == d;
        if x < version.len() {
            assert(version[x] == d);
        } else if x < version.len() + unused.len() {
            assert(unused[x - version.len()] == d);
        } else {
            assert(lints[x - version.len() - unused.len()] == d);
        }
    }
    if version.contains(d) {
        let x = choose|x: int| 0 <= x < version.len() && version[x] == d;
        assert(all[x] == d);
    }
    if unused.contains(d) {
        let x = choose|x: int| 0 <= x < unused.len() && unused[x] == d;
        assert(all[version.len() + x] == d);
    }
    if lints.contains(d) {
        let x = choose|x: int| 0 <= x < lints.len() && lints[x] == d;
        assert(all[version.len() + unused.len() + x] == d);
    }
}

proof fn lemma_first_line_len(line: Seq<char>, rest: Seq<char>)
    requires
        !line.contains('\n'),
    ensures
        first_line_len(line) == byte_len(line),
        first_line_len(line + "\n"@ + rest) == byte_len(line),
    decreases rest.len(),
{
    reveal_strlit("\n");
    if line.len() > 0 {
        assert(!line.drop_last().contains('\n')) by {
            if line.drop_last().contains('\n') {
                let k = choose|k: int| 0 <= k < line.len() - 1 && line.drop_last()[k] == '\n';
                assert(line[k] == '\n');
            }
        }
        assert(line[line.len() - 1] != '\n');
    }
    let t = line + "\n"@ + rest;
    if rest.len() == 0 {
        assert(t.drop_last() =~= line);
        assert(t.last() == '\n');
    } else {
        let init = rest.drop_last();
        lemma_first_line_len(line, init);
        assert(t.drop_last() =~= line + "\n"@ + init);
        assert(t.drop_last()[line.len() as int] == '\n');
    }
}

/// The codes of the checks, told apart by their lengths and first letters.
proof fn lemma_codes_differ()
    ensures
        "missing-version"@.len() == 15,
        "missing-version"@[0] == 'm',
        "unused-variable"@.len() == 15,
        "unused-variable"@[0] == 'u',
        "self-assignment"@.len() == 15,
        "self-assignment"@[0] == 's',
        "lookahead-bias"@.len() == 14,
        "redundant-na"@.len() == 12,
        "future-leak"@.len() == 11,
        "duplicate-parameter"@.len() == 19,
        "ta-conditional"@.len() == 14,
        "strategy-no-orders"@.len() == 18,
        "strategy-no-exit"@.len() == 16,
{
    reveal_strlit("missing-version");
    reveal_strlit("unused-variable");
    reveal_strlit("self-assignment");
    reveal_strlit("lookahead-bias");
    reveal_strlit("redundant-na");
    reveal_strlit("future-leak");
    reveal_strlit("duplicate-parameter");
    reveal_strlit("ta-conditional");
    reveal_strlit("strategy-no-orders");
    reveal_strlit("strategy-no-exit");
}

/// A diagnostic with the code of a check comes from that check.
proof fn lemma_check_of_code(m: Model, d: DiagFacts)
    requires
        diagnostics_of(m).contains(d),
    ensures
        d.code == "missing-version"@ ==> version_diags(m.text).contains(d),
        d.code == "unused-variable"@ ==> unused_upto(m, all_defs(m).len() as int).contains(d),
        d.code != "missing-version"@ && d.code != "unused-variable"@ ==> lints_of(m).contains(d),
{
    lemma_codes_differ();
    law_diagnostics_are_the_reports(m, d);
    let n = all_defs(m).len() as int;
    if unused_upto(m, n).contains(d) {
        let x = choose|x: int| 0 <= x < unused_upto(m, n).len() && unused_upto(m, n)[x] == d;
        law_unused_are_definitions(m, n, x);
    }
    if lints_of(m).contains(d) {
        let x = choose|x: int| 0 <= x < lints_of(m).len() && lints_of(m)[x] == d;
        law_lint_codes(m, x);
    }
}

/// A document without `@version=` anywhere is reported on its first line; one that has
/// it anywhere is not.
pub proof fn law_missing_version_is_reported(
    m: Model,
    line: Seq<char>,
    rest: Seq<char>,
    before: Seq<char>,
    behind: Seq<char>,
    x: int,
)
    requires
        !line.contains('\n'),
        m.text == line || m.text == line + "\n"@ + rest,
    ensures
        (forall|a: Seq<char>, b: Seq<char>| m.text != #[trigger] (a + "@version="@ + b))
            ==> diagnostics_of(m).contains(
            DiagFacts {
                start_byte: 0,
                end_byte: byte_len(line) as int,
                severity: Severity::Warning,
                code: "missing-version"@,
                message: "Missing `//@version=6` directive"@,
            },
        ),
        m.text == before + "@version="@ + behind && 0 <= x < diagnostics_of(m).len()
            ==> diagnostics_of(m)[x].code != "missing-version"@,
{
    lemma_first_line_len(line, rest);
    law_contained_text(before, "@version="@, behind, m.text);
    if forall|a: Seq<char>, b: Seq<char>| m.text != #[trigger] (a + "@version="@ + b) {
        let d = DiagFacts {
            start_byte: 0,
            end_byte: byte_len(line) as int,
            severity: Severity::Warning,
            code: "missing-version"@,
            message: "Missing `//@version=6` directive"@,
        };
        assert(version_diags(m.text)[0] == d);
        law_diagnostics_are_the_reports(m, d);
    }
    if m.text == before + "@version="@ + behind && 0 <= x < diagnostics_of(m).len() {
        lemma_check_of_code(m, diagnostics_of(m)[x]);
    }
}

/// Every free occurrence of `name` is the same node.
pub open spec fn occurs_once(m: Model, name: Seq<char>) -> bool {
    forall|i: int, j: int|
        0 <= i < m.nodes.len() && 0 <= j < m.nodes.len() && #[trigger] spells_freely(m, name, i)
            && #[trigger] spells_freely(m, name, j) ==> i == j
}

proof fn lemma_occurs_once(m: Model, name: Seq<char>)
    ensures
        occurs_once(m, name) <==> all_refs(m, name).len() <= 1,
{
    let all = numbers(m.nodes.len());
    let p = |i: int| spells_freely(m, name, i);
    let some = all.filter(p);
    law_references_are_exact(m, name);
    assert(all_refs(m, name).len() == some.len());
    if some.len() >= 2 {
        lemma_filter_ascends(all, p, 0, 1);
        all.lemma_filter_pred(p, 0);
        all.lemma_filter_pred(p, 1);
        lemma_filter_members(all, p);
        let i = some[0];
        let j = some[1];
        assert(all.contains(some[0]) && all.contains(some[1]));
        assert(spells_freely(m, name, i) && spells_freely(m, name, j));
    } else {
        assert forall|i: int, j: int|
            0 <= i < m.nodes.len() && 0 <= j < m.nodes.len() && #[trigger] spells_freely(m, name, i)
                && #[trigger] spells_freely(m, name, j) implies i == j by {
            assert(all[i] == i && all[j] == j);
            all.lemma_filter_contains(p, i);
            all.lemma_filter_contains(p, j);
            assert(some.contains(i) && some.contains(j));
        }
    }
}

proof fn lemma_unused_found(m: Model, k: int, i: int)
    requires
        0 <= i < k <= all_defs(m).len(),
        is_unused(m, all_defs(m)[i]),
    ensures
        unused_upto(m, k).contains(unused_diag(all_defs(m)[i])),
    decreases k,
{
    let before = unused_upto(m, k - 1);
    let now = unused_upto(m, k);
    let d = unused_diag(all_defs(m)[i]);
    if i < k - 1 {
        lemma_unused_found(m, k - 1, i);
        let x = choose|x: int| 0 <= x < before.len() && before[x] == d;
        assert(now[x] == d);
    } else {
        assert(now[now.len() - 1] == d);
    }
}

proof fn lemma_unused_source(m: Model, k: int, x: int)
    requires
        0 <= k <= all_defs(m).len(),
        0 <= x < unused_upto(m, k).len(),
    ensures
        exists|i: int|
            0 <= i < k && unused_upto(m, k)[x] == unused_diag(#[trigger] all_defs(m)[i])
                && is_unused(m, all_defs(m)[i]),
    decreases k,
{
    let before = unused_upto(m, k - 1);
    if x < before.len() {
        lemma_unused_source(m, k - 1, x);
        assert(unused_upto(m, k)[x] == before[x]);
    } else {
        assert(unused_upto(m, k)[x] == unused_diag(all_defs(m)[k - 1]));
    }
}

/// The report on the variable `def` for never being used.
pub open spec fn unused_report(def: DefFacts) -> DiagFacts {
    DiagFacts {
        start_byte: def.start_byte,
        end_byte: def.end_byte,
        severity: Severity::Warning,
        code: "unused-variable"@,
        message: "Variable `"@ + def.name + "` is declared but never used"@,
    }
}

/// A variable that occurs nowhere but in its definition is reported; only `_` may.
pub proof fn law_unused_variables_are_reported(m: Model, i: int)
    requires
        0 <= i < all_defs(m).len(),
        all_defs(m)[i].kind == SymbolKind::Variable,
        all_defs(m)[i].name != "_"@,
        occurs_once(m, all_defs(m)[i].name),
    ensures
        diagnostics_of(m).contains(unused_report(all_defs(m)[i])),
{
    let n = all_defs(m).len() as int;
    lemma_occurs_once(m, all_defs(m)[i].name);
    lemma_unused_found(m, n, i);
    law_diagnostics_are_the_reports(m, unused_report(all_defs(m)[i]));
}

/// What is reported as unused is a variable, not `_`, and it occurs nowhere but in its
/// definition.
pub proof fn law_unused_reports_are_right(m: Model, x: int)
    requires
        0 <= x < diagnostics_of(m).len(),
        diagnostics_of(m)[x].code == "unused-variable"@,
    ensures
        exists|i: int|
            0 <= i < all_defs(m).len() && diagnostics_of(m)[x] == unused_report(
                #[trigger] all_defs(m)[i],
            ) && all_defs(m)[i].kind == SymbolKind::Variable && all_defs(m)[i].name != "_"@
                && occurs_once(m, all_defs(m)[i].name),
{
    let d = diagnostics_of(m)[x];
    let n = all_defs(m).len() as int;
    lemma_check_of_code(m, d);
    let y = choose|y: int| 0 <= y < unused_upto(m, n).len() && unused_upto(m, n)[y] == d;
    lemma_unused_source(m, n, y);
    let i = choose|i: int|
        0 <= i < n && unused_upto(m, n)[y] == unused_diag(#[trigger] all_defs(m)[i]) && is_unused(
            m,
            all_defs(m)[i],
        );
    lemma_occurs_once(m, all_defs(m)[i].name);
    assert(d == unused_report(all_defs(m)[i]));
}

/// What the logic-lint reports is reported, and a diagnostic with any other code than
/// `missing-version` and `unused-variable` is a report of the logic-lint.
pub proof fn law_lints_are_diagnostics(m: Model, x: int)
    ensures
        0 <= x < lints_of(m).len() ==> diagnostics_of(m).contains(lints_of(m)[x]),
        0 <= x < diagnostics_of(m).len() && diagnostics_of(m)[x].code != "missing-version"@
            && diagnostics_of(m)[x].code != "unused-variable"@ ==> lints_of(m).contains(
            diagnostics_of(m)[x],
        ),
{
    if 0 <= x < lints_of(m).len() {
        law_diagnostics_are_the_reports(m, lints_of(m)[x]);
    }
    if 0 <= x < diagnostics_of(m).len() {
        lemma_check_of_code(m, diagnostics_of(m)[x]);
    }
}

/// A script that calls `strategy.exit`, `strategy.close` or `strategy.close_all` has no
/// diagnostic for placing no orders, nor for having no exit.
pub proof fn law_an_exit_silences_the_strategy_diagnostics(m: Model, i: int, x: int)
    requires
        0 <= i < m.nodes.len(),
        call_name(m, i) == Some("strategy.exit"@) || call_name(m, i) == Some("strategy.close"@)
            || call_name(m, i) == Some("strategy.close_all"@),
        0 <= x < diagnostics_of(m).len(),
    ensures
        diagnostics_of(m)[x].code != "strategy-no-exit"@,
        diagnostics_of(m)[x].code != "strategy-no-orders"@,
{
    lemma_codes_differ();
    law_lints_are_diagnostics(m, x);
    let d = diagnostics_of(m)[x];
    if lints_of(m).contains(d) {
        let y = choose|y: int| 0 <= y < lints_of(m).len() && lints_of(m)[y] == d;
        law_an_exit_is_enough(m, i, y);
    }
}

/// Of two diagnostics the one that starts earlier comes first, and of two that start
/// together the one that ends earlier.
pub proof fn law_diagnostics_by_position(m: Model, x: int, y: int)
    requires
        0 <= x < y < diagnostics_of(m).len(),
    ensures
        diagnostics_of(m)[x].start_byte <= diagnostics_of(m)[y].start_byte,
        diagnostics_of(m)[x].start_byte == diagnostics_of(m)[y].start_byte
            ==> diagnostics_of(m)[x].end_byte <= diagnostics_of(m)[y].end_byte,
{
    law_diagnostics_are_sorted(m);
    assert(span_order()(diagnostics_of(m)[x], diagnostics_of(m)[y]));
}

// ---------------------------------------------------------------------------
// Checking
// ---------------------------------------------------------------------------

/// Run all semantic checks over a parsed document, sorted by position.
pub fn analyze(doc: &Document) -> (r: Vec<Diagnostic>)
    requires
        doc.wf(),
    ensures
        views(r@) == diagnostics_of(doc@),
{
    let mut out: Vec<Diagnostic> = Vec::new();
    proof {
        lemma_views_empty::<Diagnostic>();
    }
    check_version_directive(doc, &mut out);
    check_unused_variables(doc, &mut out);
    logiclint::check(doc, &mut out);
    proof {
        assert(views(out@) =~= unsorted_diags(doc@));
    }
    sort_by_span(out)
}

/// Pine requires a `//@version=N` directive; v6 tooling expects v6.
fn check_version_directive(doc: &Document, out: &mut Vec<Diagnostic>)
    requires
        doc.wf(),
    ensures
        views(final(out)@) == views(old(out)@) + version_diags(doc@.text),
{
    let text = doc.text();
    if str_contains(text, "@version=") {
        proof {
            assert(views(out@) =~= views(out@) + version_diags(doc@.text));
        }
        return;
    }
    let ghost before = out@;
    let diag = Diagnostic {
        start_byte: 0,
        end_byte: first_line_end(text),
        severity: Severity::Warning,
        code: "missing-version",
        message: "Missing `//@version=6` directive".to_owned(),
    };
    proof {
        lemma_views_push(before, diag);
        assert(views(before).push(diag@) =~= views(before) + version_diags(doc@.text));
    }
    out.push(diag);
}

/// The length in bytes of the first line, its line break left out.
fn first_line_end(text: &str) -> (r: usize)
    ensures
        r == first_line_len(text@),
{
    let len: usize = str_len(text);
    let mut byte: usize = 0;
    let mut found = false;
    let ghost mut k: int = 0;
    proof {
        assert(text@.take(0) =~= Seq::<char>::empty());
    }
    for c in it: text.chars()
        invariant
            it.seq() == text@,
            k == it.index(),
            len == byte_len(text@),
            found == text@.take(k).contains('\n'),
            byte == first_line_len(text@.take(k)),
            !found ==> byte == byte_len(text@.take(k)),
    {
        proof {
            let now = text@.take(k + 1);
            assert(now.drop_last() =~= text@.take(k));
            assert(now =~= text@.take(k).push(c));
            lemma_byte_len_push(text@.take(k), c);
            lemma_byte_len_take(text@, k + 1, text@.len() as int);
            assert(text@.take(text@.len() as int) =~= text@);
            assert(now.last() == c);
            if text@.take(k).contains('\n') {
                let x = choose|x: int| 0 <= x < k && text@.take(k)[x] == '\n';
                assert(now[x] == '\n');
            } else if c != '\n' {
                assert forall|x: int| 0 <= x < now.len() implies now[x] != '\n' by {
                    if x < k {
                        assert(text@.take(k)[x] == now[x]);
                    }
                }
            } else {
                assert(now[k] == '\n');
            }
        }
        if !found {
            if c == '\n' {
                found = true;
            } else {
                byte = byte + utf8_len(c);
            }
        }
        proof {
            k = k + 1;
        }
    }
    proof {
        assert(text@.take(text@.len() as int) =~= text@);
    }
    byte
}

/// Top-level user variables that are declared but never referenced.
///
/// Only user definitions are looked at, so builtins can never be flagged.
fn check_unused_variables(doc: &Document, out: &mut Vec<Diagnostic>)
    requires
        doc.wf(),
    ensures
        views(final(out)@) == views(old(out)@) + unused_upto(
            doc@,
            all_defs(doc@).len() as int,
        ),
{
    let defs = definitions(doc);
    let ghost start = views(out@);
    let mut k: usize = 0;
    proof {
        assert(start =~= start + unused_upto(doc@, 0));
    }
    while k < defs.len()
        invariant
            doc.wf(),
            k <= defs@.len(),
            views(defs@) == all_defs(doc@),
            views(out@) == start + unused_upto(doc@, k as int),
        decreases defs@.len() - k,
    {
        let def = &defs[k];
        proof {
            assert(all_defs(doc@)[k as int] == def@);
        }
        if def.kind == SymbolKind::Variable && !str_eq(def.name.as_str(), "_") {
            // The definition itself is one of the references; no more than one
            // occurrence means that the variable is never used.
            let refs = references(doc, def.name.as_str());
            proof {
                assert(span_views(refs@).len() == refs@.len());
            }
            if refs.len() <= 1 {
                let ghost before = out@;
                let diag = Diagnostic {
                    start_byte: def.start_byte,
                    end_byte: def.end_byte,
                    severity: Severity::Warning,
                    code: "unused-variable",
                    message: concat3(
                        "Variable `",
                        def.name.as_str(),
                        "` is declared but never used",
                    ),
                };
                proof {
                    lemma_views_push(before, diag);
                    assert(views(before).push(diag@) =~= start + unused_upto(doc@, k + 1));
                }
                out.push(diag);
            }
        }
        k = k + 1;
    }
}

/// The diagnostics by position; those at the same place keep their order.
fn sort_by_span(items: Vec<Diagnostic>) -> (r: Vec<Diagnostic>)
    ensures
        views(r@) == stable_sort(views(items@), span_order()),
{
    let ghost all = views(items@);
    let mut items = items;
    let mut out: Vec<Diagnostic> = Vec::new();
    let ghost mut k: int = 0;
    proof {
        lemma_views_empty::<Diagnostic>();
        assert(all.take(0) =~= Seq::<DiagFacts>::empty());
        assert(all.skip(0) =~= all);
    }
    while items.len() > 0
        invariant
            0 <= k <= all.len(),
            views(items@) == all.skip(k),
            views(out@) == stable_sort(all.take(k), span_order()),
        decreases items@.len(),
    {
        let ghost rest = items@;
        let item = items.remove(0);
        proof {
            lemma_views_remove_first(rest);
            assert(views(rest).len() == rest.len());
            assert(all.skip(k)[0] == all[k]);
            assert(all.skip(k).drop_first() =~= all.skip(k + 1));
            assert(all.take(k + 1).drop_last() =~= all.take(k));
        }
        insert_by_span(&mut out, item);
        proof {
            k = k + 1;
        }
    }
    proof {
        assert(all.take(all.len() as int) =~= all);
        assert(all.skip(k).len() == 0);
    }
    out
}

fn insert_by_span(out: &mut Vec<Diagnostic>, item: Diagnostic)
    ensures
        views(final(out)@) == insert_after(views(old(out)@), item@, span_order()),
{
    let ghost s = views(out@);
    let mut j: usize = out.len();
    while j > 0 && (out[j - 1].start_byte > item.start_byte || (out[j - 1].start_byte
        == item.start_byte && out[j - 1].end_byte > item.end_byte))
        invariant
            j <= out@.len(),
            s == views(out@),
            forall|i: int| j <= i < s.len() ==> !#[trigger] span_order()(s[i], item@),
        decreases j,
    {
        proof {
            assert(s[j - 1] == out@[j - 1]@);
        }
        j = j - 1;
    }
    proof {
        if j > 0 {
            assert(s[j - 1] == out@[j - 1]@);
        }
        lemma_insert_at(s, item@, span_order(), j as int);
        assert(views(out@.insert(j as int, item)) =~= s.insert(j as int, item@));
    }
    out.insert(j, item);
}

}
