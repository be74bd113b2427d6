//! The outline of a document: its symbols, and what can be folded.

use vstd::prelude::*;
use vstd::string::*;

use crate::document::Document;
use crate::lsp::{
    byte_range, law_range_round_trip, range_bytes, range_of, DocumentSymbol, FoldingRange,
    OutlineFacts, OutlineKind,
};
use crate::strings::{at_char, lemma_views_empty, lemma_views_push, views};
use crate::symbols::{all_defs, definitions, numbers, DefFacts, SymbolKind};
use crate::syntax::{lemma_filter_take, Model, Node};

verus! {

pub open spec fn outline_kind(kind: SymbolKind) -> OutlineKind {
    match kind {
        SymbolKind::Function => OutlineKind::Function,
        SymbolKind::Variable | SymbolKind::Parameter => OutlineKind::Variable,
        SymbolKind::Type => OutlineKind::Struct,
        SymbolKind::Enum => OutlineKind::Enum,
    }
}

pub open spec fn outline_of(m: Model, def: DefFacts) -> OutlineFacts {
    let range = range_of(m.text, def.start_byte, def.end_byte);
    OutlineFacts {
        name: def.name,
        kind: outline_kind(def.kind),
        range,
        selection_range: range,
    }
}

/// The outline of the first `k` definitions; parameters are left out.
pub open spec fn outline_upto(m: Model, k: int) -> Seq<OutlineFacts>
    decreases k,
{
    if k <= 0 {
        Seq::empty()
    } else if all_defs(m)[k - 1].kind == SymbolKind::Parameter {
        outline_upto(m, k - 1)
    } else {
        outline_upto(m, k - 1).push(outline_of(m, all_defs(m)[k - 1]))
    }
}

pub open spec fn document_outline(m: Model) -> Seq<OutlineFacts> {
    outline_upto(m, all_defs(m).len() as int)
}

fn to_symbol_kind(kind: SymbolKind) -> (r: OutlineKind)
    ensures
        r == outline_kind(kind),
{
    match kind {
        SymbolKind::Function => OutlineKind::Function,
        SymbolKind::Variable | SymbolKind::Parameter => OutlineKind::Variable,
        SymbolKind::Type => OutlineKind::Struct,
        SymbolKind::Enum => OutlineKind::Enum,
    }
}

/// Top-level document symbols (functions, variables, types, enums).
pub fn document_symbols(doc: &Document) -> (r: Vec<DocumentSymbol>)
    requires
        doc.wf(),
    ensures
        views(r@) == document_outline(doc@),
{
    let defs = definitions(doc);
    let mut out: Vec<DocumentSymbol> = Vec::new();
    let mut k: usize = 0;
    proof {
        lemma_views_empty::<DocumentSymbol>();
    }
    while k < defs.len()
        invariant
            doc.wf(),
            k <= defs@.len(),
            views(defs@) == all_defs(doc@),
            views(out@) == outline_upto(doc@, k as int),
        decreases defs@.len() - k,
    {
        let def = &defs[k];
        proof {
            assert(all_defs(doc@)[k as int] == def@);
        }
        if def.kind != SymbolKind::Parameter {
            let range = byte_range(doc, def.start_byte, def.end_byte);
            let one = DocumentSymbol {
                name: def.name.clone(),
                kind: to_symbol_kind(def.kind),
                range,
                selection_range: range,
            };
            proof {
                lemma_views_push(out@, one);
            }
            out.push(one);
        }
        k = k + 1;
    }
    out
}

/// The kinds of nodes that fold: functions, types, control flow, blocks.
pub open spec fn is_foldable(kind: Seq<char>) -> bool {
    ||| kind == "function_declaration_statement"@
    ||| kind == "type_definition_statement"@
    ||| kind == "enum_declaration"@
    ||| kind == "if_statement"@
    ||| kind == "for_statement"@
    ||| kind == "for_in_statement"@
    ||| kind == "switch_statement"@
    ||| kind == "while_statement"@
    ||| kind == "block"@
}

/// The folds of the first `k` nodes: foldable nodes of more than one line.
pub open spec fn folds_upto(m: Model, k: int) -> Seq<FoldingRange>
    decreases k,
{
    if k <= 0 {
        Seq::empty()
    } else {
        let node = m.nodes[k - 1];
        if is_foldable(node.kind) && node.end_row > node.start_row {
            folds_upto(m, k - 1).push(
                FoldingRange { start_line: node.start_row as u32, end_line: node.end_row as u32 },
            )
        } else {
            folds_upto(m, k - 1)
        }
    }
}

fn folds(node: &Node) -> (r: bool)
    ensures
        r == is_foldable(node@.kind),
{
    node.is("function_declaration_statement") || node.is("type_definition_statement") || node.is(
        "enum_declaration",
    ) || node.is("if_statement") || node.is("for_statement") || node.is("for_in_statement")
        || node.is("switch_statement") || node.is("while_statement") || node.is("block")
}

/// Folding ranges for block-like constructs (functions, types, control flow).
pub fn folding_ranges(doc: &Document) -> (r: Vec<FoldingRange>)
    requires
        doc.wf(),
    ensures
        r@ == folds_upto(doc@, doc@.nodes.len() as int),
{
    let mut out: Vec<FoldingRange> = Vec::new();
    let mut i: usize = 0;
    while i < doc.tree().len()
        invariant
            doc.wf(),
            i <= doc@.nodes.len(),
            out@ == folds_upto(doc@, i as int),
        decreases doc@.nodes.len() - i,
    {
        let node = &doc.tree()[i];
        proof {
            assert(node@ == doc@.nodes[i as int]);
        }
        if folds(node) && node.end_row > node.start_row {
            out.push(
                FoldingRange { start_line: node.start_row as u32, end_line: node.end_row as u32 },
            );
        }
        i = i + 1;
    }
    out
}

proof fn lemma_outline_exactly(m: Model, k: int)
    requires
        0 <= k <= all_defs(m).len(),
    ensures
        outline_upto(m, k) == all_defs(m).take(k).filter(
            |d: DefFacts| d.kind != SymbolKind::Parameter,
        ).map_values(|d: DefFacts| outline_of(m, d)),
    decreases k,
{
    let all = all_defs(m);
    let p = |d: DefFacts| d.kind != SymbolKind::Parameter;
    let f = |d: DefFacts| outline_of(m, d);
    reveal(Seq::filter);
    if k > 0 {
        lemma_outline_exactly(m, k - 1);
        assert(all.take(k).drop_last() =~= all.take(k - 1));
        assert(all.take(k).last() == all[k - 1]);
        let before = all.take(k - 1).filter(p);
        assert(before.push(all[k - 1]).map_values(f) =~= before.map_values(f).push(f(all[k - 1])));
    } else {
        assert(outline_upto(m, k) =~= all.take(k).filter(p).map_values(f));
    }
}

/// The outline holds every definition but the parameters, in their order.
pub proof fn law_outline_leaves_out_parameters(m: Model)
    ensures
        document_outline(m) == all_defs(m).filter(
            |d: DefFacts| d.kind != SymbolKind::Parameter,
        ).map_values(|d: DefFacts| outline_of(m, d)),
{
    let all = all_defs(m);
    lemma_outline_exactly(m, all.len() as int);
    assert(all.take(all.len() as int) =~= all);
}

/// An entry of the outline has the name of its definition and its bytes, and the kind
/// that goes with it.
pub proof fn law_outline_entry(m: Model, def: DefFacts)
    requires
        m.wf(),
        at_char(m.text, def.start_byte),
        at_char(m.text, def.end_byte),
    ensures
        ({
            let entry = outline_of(m, def);
            &&& entry.name == def.name
            &&& range_bytes(m.text, entry.range) == (def.start_byte, def.end_byte)
            &&& entry.selection_range == entry.range
            &&& def.kind == SymbolKind::Function ==> entry.kind == OutlineKind::Function
            &&& def.kind == SymbolKind::Variable ==> entry.kind == OutlineKind::Variable
            &&& def.kind == SymbolKind::Type ==> entry.kind == OutlineKind::Struct
            &&& def.kind == SymbolKind::Enum ==> entry.kind == OutlineKind::Enum
        }),
{
    law_range_round_trip(m.text, def.start_byte, def.end_byte);
}

/// Node `i` is a function, a type, an enum, an `if`, a loop, a `switch` or a block, of
/// more than one line.
pub open spec fn spans_a_fold(m: Model, i: int) -> bool {
    let kind = m.nodes[i].kind;
    &&& m.nodes[i].start_row < m.nodes[i].end_row
    &&& {
        ||| kind == "function_declaration_statement"@
        ||| kind == "type_definition_statement"@
        ||| kind == "enum_declaration"@
        ||| kind == "if_statement"@
        ||| kind == "for_statement"@
        ||| kind == "for_in_statement"@
        ||| kind == "switch_statement"@
        ||| kind == "while_statement"@
        ||| kind == "block"@
    }
}

proof fn lemma_folds_exactly(m: Model, k: int)
    requires
        0 <= k <= m.nodes.len(),
    ensures
        folds_upto(m, k) == numbers(m.nodes.len()).take(k).filter(
            |i: int| spans_a_fold(m, i),
        ).map_values(
            |i: int|
                FoldingRange {
                    start_line: m.nodes[i].start_row as u32,
                    end_line: m.nodes[i].end_row as u32,
                },
        ),
    decreases k,
{
    let all = numbers(m.nodes.len());
    let p = |i: int| spans_a_fold(m, i);
    let f = |i: int|
        FoldingRange {
            start_line: m.nodes[i].start_row as u32,
            end_line: m.nodes[i].end_row as u32,
        };
    if k > 0 {
        lemma_folds_exactly(m, k - 1);
        lemma_filter_take(all, p, k - 1);
        assert(all[k - 1] == k - 1);
        let before = all.take(k - 1).filter(p);
        assert(before.push(k - 1).map_values(f) =~= before.map_values(f).push(f(k - 1)));
    } else {
        reveal(Seq::filter);
        assert(all.take(0) =~= Seq::<int>::empty());
        assert(folds_upto(m, k) =~= all.take(k).filter(p).map_values(f));
    }
}

/// There is one fold for each node that spans several lines and can be folded, from its
/// first line to its last, in the order of the tree, and none for other nodes.
pub proof fn law_folds_are_exact(m: Model)
    ensures
        folds_upto(m, m.nodes.len() as int) == numbers(m.nodes.len()).filter(
            |i: int| spans_a_fold(m, i),
        ).map_values(
            |i: int|
                FoldingRange {
                    start_line: m.nodes[i].start_row as u32,
                    end_line: m.nodes[i].end_row as u32,
                },
        ),
{
    let all = numbers(m.nodes.len());
    lemma_folds_exactly(m, m.nodes.len() as int);
    assert(all.take(m.nodes.len() as int) =~= all);
}

/// A fold starts before it ends.
pub proof fn law_folds_span_lines(m: Model, k: int, x: int)
    requires
        m.wf(),
        0 <= k <= m.nodes.len(),
        0 <= x < folds_upto(m, k).len(),
    ensures
        folds_upto(m, k)[x].start_line < folds_upto(m, k)[x].end_line,
    decreases k,
{
    if x < folds_upto(m, k - 1).len() {
        law_folds_span_lines(m, k - 1, x);
    } else {
        reveal(crate::syntax::covers);
        assert(crate::syntax::covers(m.text, m.nodes[k - 1]));
    }
}

}
