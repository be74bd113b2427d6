//! Quick fixes.

use vstd::prelude::*;
use vstd::string::*;

use crate::document::spliced;
use crate::lsp::{
    range_bytes, CodeAction, CodeActionFacts, EditTextFacts, EditorDiagFacts, EditorDiagnostic, Position, Range,
    TextEdit, WorkspaceEdit, WorkspaceEditFacts,
};
use crate::strings::{
    byte_len, contains_text, law_contained_text, lemma_slice_take, lemma_views_empty,
    lemma_views_push, str_eq, views,
};
use crate::text::law_position_of_start;

verus! {

/// The start of a document, as an empty range.
pub open spec fn document_start() -> Range {
    Range {
        start: Position { line: 0, character: 0 },
        end: Position { line: 0, character: 0 },
    }
}

/// The fix that puts a version directive at the start of the document.
pub open spec fn version_action(uri: Seq<char>, diagnostic: int) -> CodeActionFacts {
    CodeActionFacts {
        title: "Add `//@version=6`"@,
        diagnostic,
        edit: WorkspaceEditFacts {
            uri,
            edits: seq![
                EditTextFacts { range: document_start(), new_text: "//@version=6\n"@ },
            ],
        },
    }
}

/// One fix for each missing version among the first `k` diagnostics.
pub open spec fn actions_upto(
    diagnostics: Seq<EditorDiagFacts>,
    uri: Seq<char>,
    k: int,
) -> Seq<CodeActionFacts>
    decreases k,
{
    if k <= 0 {
        Seq::empty()
    } else if diagnostics[k - 1].code == Some("missing-version"@) {
        actions_upto(diagnostics, uri, k - 1).push(version_action(uri, k - 1))
    } else {
        actions_upto(diagnostics, uri, k - 1)
    }
}

proof fn lemma_action_found(diagnostics: Seq<EditorDiagFacts>, uri: Seq<char>, k: int, i: int)
    requires
        0 <= i < k <= diagnostics.len(),
        diagnostics[i].code == Some("missing-version"@),
    ensures
        actions_upto(diagnostics, uri, k).contains(version_action(uri, i)),
    decreases k,
{
    let before = actions_upto(diagnostics, uri, k - 1);
    let now = actions_upto(diagnostics, uri, k);
    let a = version_action(uri, i);
    if i < k - 1 {
        lemma_action_found(diagnostics, uri, k - 1, i);
        let x = choose|x: int| 0 <= x < before.len() && before[x] == a;
        assert(now[x] == a);
    } else {
        assert(now[now.len() - 1] == a);
    }
}

proof fn lemma_action_source(diagnostics: Seq<EditorDiagFacts>, uri: Seq<char>, k: int, x: int)
    requires
        0 <= k <= diagnostics.len(),
        0 <= x < actions_upto(diagnostics, uri, k).len(),
    ensures
        ({
            let i = actions_upto(diagnostics, uri, k)[x].diagnostic;
            &&& 0 <= i < k
            &&& diagnostics[i].code == Some("missing-version"@)
            &&& actions_upto(diagnostics, uri, k)[x] == version_action(uri, i)
        }),
    decreases k,
{
    let before = actions_upto(diagnostics, uri, k - 1);
    if x < before.len() {
        lemma_action_source(diagnostics, uri, k - 1, x);
        assert(actions_upto(diagnostics, uri, k)[x] == before[x]);
    }
}

/// Every report of a missing version has a fix, and only such reports have one.
pub proof fn law_missing_versions_have_a_fix(
    diagnostics: Seq<EditorDiagFacts>,
    uri: Seq<char>,
    i: int,
    x: int,
)
    ensures
        ({
            let actions = actions_upto(diagnostics, uri, diagnostics.len() as int);
            &&& 0 <= i < diagnostics.len() && diagnostics[i].code == Some("missing-version"@)
                ==> exists|y: int|
                0 <= y < actions.len() && (#[trigger] actions[y]).diagnostic == i
            &&& 0 <= x < actions.len() ==> 0 <= actions[x].diagnostic < diagnostics.len()
                && diagnostics[actions[x].diagnostic].code == Some("missing-version"@)
                && actions[x].edit.uri == uri && actions[x].edit.edits.len() == 1
        }),
{
    let n = diagnostics.len() as int;
    let actions = actions_upto(diagnostics, uri, n);
    if 0 <= i < n && diagnostics[i].code == Some("missing-version"@) {
        lemma_action_found(diagnostics, uri, n, i);
        let y = choose|y: int| 0 <= y < actions.len() && actions[y] == version_action(uri, i);
        assert(actions[y].diagnostic == i);
    }
    if 0 <= x < actions.len() {
        lemma_action_source(diagnostics, uri, n, x);
    }
}

/// The fix mends what was reported: with its edit made, the document has a version, and
/// all of what it had before behind it.
pub proof fn law_the_fix_adds_a_version(
    diagnostics: Seq<EditorDiagFacts>,
    uri: Seq<char>,
    x: int,
    text: Seq<char>,
)
    requires
        0 <= x < actions_upto(diagnostics, uri, diagnostics.len() as int).len(),
    ensures
        ({
            let edit = actions_upto(diagnostics, uri, diagnostics.len() as int)[x].edit.edits[0];
            let (start, end) = range_bytes(text, edit.range);
            let fixed = spliced(text, start, end, edit.new_text);
            &&& fixed == "//@version=6\n"@ + text
            &&& contains_text(fixed, "@version="@)
        }),
{
    reveal_strlit("//@version=6\n");
    reveal_strlit("@version=");
    lemma_action_source(diagnostics, uri, diagnostics.len() as int, x);
    law_position_of_start(text);
    assert(text.take(0) =~= Seq::<char>::empty());
    assert(byte_len(text.take(0)) == 0);
    let n = text.len() as int;
    assert(text.take(n) =~= text);
    lemma_slice_take(text, 0, 0);
    lemma_slice_take(text, 0, n);
    let fixed = spliced(text, 0, 0, "//@version=6\n"@);
    assert(fixed =~= "//@version=6\n"@ + text);
    assert(fixed =~= "//@version=6\n"@.take(2) + "@version="@ + ("//@version=6\n"@.skip(11) + text));
    law_contained_text(
        "//@version=6\n"@.take(2),
        "@version="@,
        "//@version=6\n"@.skip(11) + text,
        fixed,
    );
}

/// Quick-fix code actions for diagnostics in range. Currently: add a missing
/// `//@version=6` directive.
pub fn code_actions(diagnostics: &Vec<EditorDiagnostic>, uri: &str) -> (r: Vec<CodeAction>)
    ensures
        views(r@) == actions_upto(views(diagnostics@), uri@, diagnostics@.len() as int),
{
    let ghost all = views(diagnostics@);
    let mut actions: Vec<CodeAction> = Vec::new();
    let mut k: usize = 0;
    proof {
        lemma_views_empty::<CodeAction>();
    }
    while k < diagnostics.len()
        invariant
            k <= diagnostics@.len(),
            all == views(diagnostics@),
            views(actions@) == actions_upto(all, uri@, k as int),
        decreases diagnostics@.len() - k,
    {
        proof {
            assert(all[k as int] == diagnostics@[k as int]@);
        }
        if let Some(code) = &diagnostics[k].code {
            if str_eq(code.as_str(), "missing-version") {
                let start = Position { line: 0, character: 0 };
                let edit = TextEdit {
                    range: Range { start, end: start },
                    new_text: "//@version=6\n".to_owned(),
                };
                let mut edits: Vec<TextEdit> = Vec::new();
                proof {
                    lemma_views_empty::<TextEdit>();
                    lemma_views_push(edits@, edit);
                }
                edits.push(edit);
                let action = CodeAction {
                    title: "Add `//@version=6`".to_owned(),
                    diagnostic: k,
                    edit: WorkspaceEdit { uri: uri.to_owned(), edits },
                };
                proof {
                    assert(action@.edit.edits =~= version_action(uri@, k as int).edit.edits);
                    lemma_views_push(actions@, action);
                }
                actions.push(action);
            }
        }
        k = k + 1;
    }
    actions
}

}
