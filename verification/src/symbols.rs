//! User-symbol extraction over the syntax tree: definitions, the identifier
//! under a cursor, and same-name references.
//!
//! This is name-based, not scope-resolved: a local parameter and a global
//! variable that share a name are treated as the same symbol.

use vstd::prelude::*;
use vstd::string::*;

use crate::document::Document;
use crate::strings::{
    concat3, lemma_views_empty, lemma_views_push, opt_view, slice_bytes, str_eq, views,
};
use crate::syntax::{
    child_by_field, children_by_field, children_of, covers, end_of, field_child, field_children,
    in_text_order, indices, law_below_parent, law_field_child_is_the_first, law_parent_of_child, lemma_above, lemma_children,
    lemma_end_below, lemma_field_child, lemma_filter_members, lemma_filter_take, lemma_first_field,
    lies_below, parent, parent_of, Model,
};

verus! {

#[derive(Debug, Clone, Copy, PartialEq, Eq, Structural)]
pub enum SymbolKind {
    Function,
    Variable,
    Parameter,
    Type,
    Enum,
}

#[derive(Debug, Clone)]
pub struct SymbolDef {
    pub name: String,
    pub kind: SymbolKind,
    /// Byte range of the defining *name* identifier.
    pub start_byte: usize,
    pub end_byte: usize,
}

/// What a [`SymbolDef`] says.
pub struct DefFacts {
    pub name: Seq<char>,
    pub kind: SymbolKind,
    pub start_byte: int,
    pub end_byte: int,
}

impl View for SymbolDef {
    type V = DefFacts;

    open spec fn view(&self) -> DefFacts {
        DefFacts {
            name: self.name@,
            kind: self.kind,
            start_byte: self.start_byte as int,
            end_byte: self.end_byte as int,
        }
    }
}

// ---------------------------------------------------------------------------
// What the symbols of a document are
// ---------------------------------------------------------------------------

/// The definition that the node `id` gives a name to, if it is an identifier.
pub open spec fn named_def(m: Model, id: int, kind: SymbolKind) -> Seq<DefFacts> {
    if m.nodes[id].kind == "identifier"@ {
        seq![
            DefFacts {
                name: m.node_text(id),
                kind,
                start_byte: m.nodes[id].start_byte,
                end_byte: m.nodes[id].end_byte,
            },
        ]
    } else {
        Seq::empty()
    }
}

/// The definition under the first child with that field.
pub open spec fn field_def(m: Model, i: int, field: Seq<char>, kind: SymbolKind) -> Seq<DefFacts> {
    match field_child(m.nodes, i, field) {
        Some(id) => named_def(m, id, kind),
        None => Seq::empty(),
    }
}

/// The definitions that the first `k` nodes of `ids` give names to.
pub open spec fn list_defs(m: Model, ids: Seq<int>, kind: SymbolKind, k: int) -> Seq<DefFacts>
    decreases k,
{
    if k <= 0 {
        Seq::empty()
    } else {
        list_defs(m, ids, kind, k - 1) + named_def(m, ids[k - 1], kind)
    }
}

/// The definitions under all children with that field.
pub open spec fn field_defs(m: Model, i: int, field: Seq<char>, kind: SymbolKind) -> Seq<DefFacts> {
    let ids = field_children(m.nodes, i, field);
    list_defs(m, ids, kind, ids.len() as int)
}

/// The function's name: regular functions have it under `function`, methods
/// under `method`.
pub open spec fn function_name_def(m: Model, i: int) -> Seq<DefFacts> {
    match field_child(m.nodes, i, "function"@) {
        Some(id) => named_def(m, id, SymbolKind::Function),
        None => field_def(m, i, "method"@, SymbolKind::Function),
    }
}

/// The kinds of nodes whose inside is not the top level: functions, conditionals,
/// loops, types, enums.
pub open spec fn opens_scope(kind: Seq<char>) -> bool {
    ||| kind == "function_declaration_statement"@
    ||| kind == "if_statement"@
    ||| kind == "switch_statement"@
    ||| kind == "for_statement"@
    ||| kind == "for_in_statement"@
    ||| kind == "while_statement"@
    ||| kind == "type_definition_statement"@
    ||| kind == "enum_declaration"@
}

/// Node `i` is not at the top level: it stands inside a function, a conditional, a
/// loop, a type or an enum.
pub open spec fn is_nested(m: Model, i: int) -> bool {
    exists|p: int|
        #![trigger m.nodes[p]]
        lies_below(m.nodes, p, i) && opens_scope(m.nodes[p].kind)
}

/// The names that node `i` itself gives to what it defines, parameters left out. A
/// loop gives a name to its own variable.
pub open spec fn names_at(m: Model, i: int) -> Seq<DefFacts> {
    let kind = m.nodes[i].kind;
    if kind == "variable_definition"@ || kind == "variable_definition_statement"@ {
        field_def(m, i, "variable"@, SymbolKind::Variable)
    } else if kind == "function_declaration_statement"@ {
        function_name_def(m, i)
    } else if kind == "for_statement"@ {
        field_def(m, i, "counter"@, SymbolKind::Variable)
    } else if kind == "import"@ {
        field_def(m, i, "alias"@, SymbolKind::Variable)
    } else if kind == "type_definition_statement"@ {
        field_def(m, i, "name"@, SymbolKind::Type)
    } else if kind == "enum_declaration"@ {
        field_def(m, i, "name"@, SymbolKind::Enum)
    } else if kind == "tuple_declaration"@ || kind == "tuple_declaration_statement"@ {
        field_defs(m, i, "variables"@, SymbolKind::Variable)
    } else if kind == "for_in_statement"@ {
        field_def(m, i, "array_element"@, SymbolKind::Variable)
    } else {
        Seq::empty()
    }
}

/// The parameters of the function that node `i` declares.
pub open spec fn parameters_at(m: Model, i: int) -> Seq<DefFacts> {
    if m.nodes[i].kind == "function_declaration_statement"@ {
        field_defs(m, i, "argument"@, SymbolKind::Parameter)
    } else {
        Seq::empty()
    }
}

/// The definitions that node `i` makes: what it names at the top level, and its
/// parameters.
pub open spec fn defs_at(m: Model, i: int) -> Seq<DefFacts> {
    (if is_nested(m, i) {
        Seq::empty()
    } else {
        names_at(m, i)
    }) + parameters_at(m, i)
}

/// The definitions that the first `k` nodes make, in source order.
pub open spec fn defs_upto(m: Model, k: int) -> Seq<DefFacts>
    decreases k,
{
    if k <= 0 {
        Seq::empty()
    } else {
        defs_upto(m, k - 1) + defs_at(m, k - 1)
    }
}

/// All definitions of a document.
pub open spec fn all_defs(m: Model) -> Seq<DefFacts> {
    defs_upto(m, m.nodes.len() as int)
}

/// Node `i` is the member side of a member access (`obj.MEMBER`).
pub open spec fn is_member(m: Model, i: int) -> bool {
    match parent_of(m.nodes, i) {
        Some(p) => m.nodes[p].kind == "attribute"@ && field_child(m.nodes, p, "attribute"@) == Some(
            i,
        ),
        None => false,
    }
}

/// Node `i` is a free occurrence of `name`.
pub open spec fn is_reference(m: Model, name: Seq<char>, i: int) -> bool {
    m.nodes[i].kind == "identifier"@ && m.node_text(i) == name && !is_member(m, i)
}

/// The free occurrences of `name` among the first `k` nodes.
pub open spec fn refs_upto(m: Model, name: Seq<char>, k: int) -> Seq<(int, int)>
    decreases k,
{
    if k <= 0 {
        Seq::empty()
    } else {
        let before = refs_upto(m, name, k - 1);
        if is_reference(m, name, k - 1) {
            before.push((m.nodes[k - 1].start_byte, m.nodes[k - 1].end_byte))
        } else {
            before
        }
    }
}

/// All free occurrences of `name`.
pub open spec fn all_refs(m: Model, name: Seq<char>) -> Seq<(int, int)> {
    refs_upto(m, name, m.nodes.len() as int)
}

/// The identifier under an offset: its text and its bytes.
pub open spec fn identifier_of(m: Model, byte: int) -> Option<(Seq<char>, int, int)> {
    let i = m.named_at(byte);
    if m.nodes[i].kind == "identifier"@ {
        Some((m.node_text(i), m.nodes[i].start_byte, m.nodes[i].end_byte))
    } else {
        None
    }
}

/// The name that an expression node spells: an identifier, or a chain of member
/// accesses that starts at one (`a.b.c`).
pub open spec fn dotted_of(m: Model, i: int) -> Option<Seq<char>>
    decreases m.nodes.len() - i,
    when 0 <= i < m.nodes.len()
    via dotted_decreases
{
    if m.nodes[i].kind == "identifier"@ {
        Some(m.node_text(i))
    } else if m.nodes[i].kind == "attribute"@ {
        match (field_child(m.nodes, i, "object"@), field_child(m.nodes, i, "attribute"@)) {
            (Some(object), Some(member)) => match dotted_of(m, object) {
                Some(name) => Some(name + "."@ + m.node_text(member)),
                None => None,
            },
            _ => None,
        }
    } else {
        None
    }
}

#[via_fn]
proof fn dotted_decreases(m: Model, i: int) {
    lemma_field_child(m.nodes, i, "object"@);
}

/// The name of the function that node `i` calls, where it is a call of a named
/// function.
pub open spec fn call_name(m: Model, i: int) -> Option<Seq<char>> {
    if m.nodes[i].kind == "call"@ {
        match field_child(m.nodes, i, "function"@) {
            Some(f) => dotted_of(m, f),
            None => None,
        }
    } else {
        None
    }
}

// ---------------------------------------------------------------------------
// Laws
// ---------------------------------------------------------------------------

proof fn lemma_list_defs_spell(m: Model, ids: Seq<int>, kind: SymbolKind, k: int)
    requires
        0 <= k <= ids.len(),
    ensures
        forall|x: int|
            0 <= x < list_defs(m, ids, kind, k).len() ==> slice_bytes(
                m.text,
                (#[trigger] list_defs(m, ids, kind, k)[x]).start_byte,
                list_defs(m, ids, kind, k)[x].end_byte,
            ) == list_defs(m, ids, kind, k)[x].name,
    decreases k,
{
    if k > 0 {
        lemma_list_defs_spell(m, ids, kind, k - 1);
    }
}

proof fn lemma_defs_upto_spell(m: Model, k: int)
    requires
        0 <= k <= m.nodes.len(),
    ensures
        forall|x: int|
            0 <= x < defs_upto(m, k).len() ==> slice_bytes(
                m.text,
                (#[trigger] defs_upto(m, k)[x]).start_byte,
                defs_upto(m, k)[x].end_byte,
            ) == defs_upto(m, k)[x].name,
    decreases k,
{
    if k > 0 {
        let i = k - 1;
        lemma_defs_upto_spell(m, i);
        let arguments = field_children(m.nodes, i, "argument"@);
        lemma_list_defs_spell(m, arguments, SymbolKind::Parameter, arguments.len() as int);
        let variables = field_children(m.nodes, i, "variables"@);
        lemma_list_defs_spell(m, variables, SymbolKind::Variable, variables.len() as int);
        let names = names_at(m, i);
        assert forall|x: int| 0 <= x < names.len() implies slice_bytes(
            m.text,
            (#[trigger] names[x]).start_byte,
            names[x].end_byte,
        ) == names[x].name by {}
        let here = defs_at(m, i);
        assert forall|x: int| 0 <= x < here.len() implies slice_bytes(
            m.text,
            (#[trigger] here[x]).start_byte,
            here[x].end_byte,
        ) == here[x].name by {}
    }
}

/// A node is nested where its parent opens a scope or is nested itself.
proof fn lemma_nested(m: Model, i: int)
    requires
        0 <= i < m.nodes.len(),
    ensures
        is_nested(m, i) <==> (parent_of(m.nodes, i) matches Some(q) && (opens_scope(m.nodes[q].kind)
            || is_nested(m, q))),
{
    lemma_above(m.nodes, m.nodes[i].depth, i - 1);
    if is_nested(m, i) {
        let p = choose|p: int|
            #![trigger m.nodes[p]]
            lies_below(m.nodes, p, i) && opens_scope(m.nodes[p].kind);
        law_below_parent(m.nodes, p, i);
        let q = parent_of(m.nodes, i)->0;
        assert(p == q || lies_below(m.nodes, p, q));
    }
    if let Some(q) = parent_of(m.nodes, i) {
        law_below_parent(m.nodes, q, i);
        assert(opens_scope(m.nodes[q].kind) ==> is_nested(m, i));
        if is_nested(m, q) {
            let p = choose|p: int|
                #![trigger m.nodes[p]]
                lies_below(m.nodes, p, q) && opens_scope(m.nodes[p].kind);
            law_below_parent(m.nodes, p, i);
            assert(lies_below(m.nodes, p, i) && opens_scope(m.nodes[p].kind));
        }
    }
}

proof fn lemma_list_defs_kind(m: Model, ids: Seq<int>, kind: SymbolKind, k: int)
    requires
        0 <= k <= ids.len(),
    ensures
        forall|x: int|
            0 <= x < list_defs(m, ids, kind, k).len() ==> (#[trigger] list_defs(
                m,
                ids,
                kind,
                k,
            )[x]).kind == kind,
    decreases k,
{
    if k > 0 {
        lemma_list_defs_kind(m, ids, kind, k - 1);
    }
}

proof fn lemma_defs_are_top_level(m: Model, k: int, x: int)
    requires
        0 <= k <= m.nodes.len(),
        0 <= x < defs_upto(m, k).len(),
        defs_upto(m, k)[x].kind != SymbolKind::Parameter,
    ensures
        exists|i: int|
            0 <= i < k && !#[trigger] is_nested(m, i) && names_at(m, i).contains(
                defs_upto(m, k)[x],
            ),
    decreases k,
{
    let before = defs_upto(m, k - 1);
    let d = defs_upto(m, k)[x];
    if x < before.len() {
        lemma_defs_are_top_level(m, k - 1, x);
        assert(d == before[x]);
    } else {
        let i = k - 1;
        let arguments = field_children(m.nodes, i, "argument"@);
        lemma_list_defs_kind(m, arguments, SymbolKind::Parameter, arguments.len() as int);
        assert(d == defs_at(m, i)[x - before.len()]);
        if is_nested(m, i) {
            assert(defs_at(m, i) =~= parameters_at(m, i));
        } else if x - before.len() < names_at(m, i).len() {
            assert(names_at(m, i)[x - before.len()] == d);
        } else {
            assert(d == parameters_at(m, i)[x - before.len() - names_at(m, i).len()]);
        }
    }
}

/// Apart from parameters, what is listed is defined at the top level: by a node
/// that stands inside no function, conditional, loop, type or enum.
pub proof fn law_definitions_are_top_level(m: Model, x: int)
    requires
        0 <= x < all_defs(m).len(),
        all_defs(m)[x].kind != SymbolKind::Parameter,
    ensures
        exists|i: int|
            0 <= i < m.nodes.len() && !#[trigger] is_nested(m, i) && names_at(m, i).contains(
                all_defs(m)[x],
            ),
{
    lemma_defs_are_top_level(m, m.nodes.len() as int, x);
}

/// The bytes of a definition are its name.
pub proof fn law_definitions_spell_their_names(m: Model, x: int)
    requires
        0 <= x < all_defs(m).len(),
    ensures
        slice_bytes(m.text, all_defs(m)[x].start_byte, all_defs(m)[x].end_byte)
            == all_defs(m)[x].name,
{
    lemma_defs_upto_spell(m, m.nodes.len() as int);
}

proof fn lemma_refs_upto(m: Model, name: Seq<char>, k: int)
    requires
        0 <= k <= m.nodes.len(),
    ensures
        forall|x: int|
            0 <= x < refs_upto(m, name, k).len() ==> slice_bytes(
                m.text,
                (#[trigger] refs_upto(m, name, k)[x]).0,
                refs_upto(m, name, k)[x].1,
            ) == name,
        forall|i: int|
            0 <= i < k && is_reference(m, name, i) ==> refs_upto(m, name, k).contains(
                ((#[trigger] m.nodes[i]).start_byte, m.nodes[i].end_byte),
            ),
    decreases k,
{
    if k > 0 {
        lemma_refs_upto(m, name, k - 1);
        let before = refs_upto(m, name, k - 1);
        let now = refs_upto(m, name, k);
        assert forall|i: int| 0 <= i < k && is_reference(m, name, i) implies now.contains(
            ((#[trigger] m.nodes[i]).start_byte, m.nodes[i].end_byte),
        ) by {
            let span = (m.nodes[i].start_byte, m.nodes[i].end_byte);
            if i < k - 1 {
                let x = choose|x: int| 0 <= x < before.len() && before[x] == span;
                assert(now[x] == span);
            } else {
                assert(now[now.len() - 1] == span);
            }
        }
    }
}

/// The bytes of a reference are the name that was asked for.
pub proof fn law_references_spell_the_name(m: Model, name: Seq<char>, x: int)
    requires
        0 <= x < all_refs(m, name).len(),
    ensures
        slice_bytes(m.text, all_refs(m, name)[x].0, all_refs(m, name)[x].1) == name,
{
    lemma_refs_upto(m, name, m.nodes.len() as int);
}

/// Every free occurrence of a name is among its references.
pub proof fn law_references_are_complete(m: Model, name: Seq<char>, i: int)
    requires
        0 <= i < m.nodes.len(),
        is_reference(m, name, i),
    ensures
        all_refs(m, name).contains((m.nodes[i].start_byte, m.nodes[i].end_byte)),
{
    lemma_refs_upto(m, name, m.nodes.len() as int);
    assert(m.nodes[i] == m.nodes[i]);
}

/// Every identifier that spells a name is among the references of the name, whatever
/// it stands under: only the member side of a member access (`obj.MEMBER`) is none.
pub proof fn law_every_occurrence_is_a_reference(m: Model, name: Seq<char>, i: int)
    requires
        0 <= i < m.nodes.len(),
        m.nodes[i].kind == "identifier"@,
        slice_bytes(m.text, m.nodes[i].start_byte, m.nodes[i].end_byte) == name,
        parent_of(m.nodes, i) matches Some(p) ==> m.nodes[p].kind != "attribute"@ || field_child(
            m.nodes,
            p,
            "attribute"@,
        ) != Some(i),
    ensures
        all_refs(m, name).contains((m.nodes[i].start_byte, m.nodes[i].end_byte)),
{
    law_references_are_complete(m, name, i);
}

/// An identifier under a history access (`ma[1]`) is among the references of its
/// name, and so is the object of a member access (`ma.x`).
pub proof fn law_accessed_names_are_references(m: Model, i: int, p: int)
    requires
        0 <= i < m.nodes.len(),
        m.nodes[i].kind == "identifier"@,
        parent_of(m.nodes, i) == Some(p),
        m.nodes[p].kind == "subscript"@ || (m.nodes[p].kind == "attribute"@ && m.nodes[i].field
            == Some("object"@)),
    ensures
        all_refs(m, m.node_text(i)).contains((m.nodes[i].start_byte, m.nodes[i].end_byte)),
{
    reveal_strlit("subscript");
    reveal_strlit("attribute");
    reveal_strlit("object");
    assert("subscript"@[0] != "attribute"@[0]);
    assert("object"@[0] != "attribute"@[0]);
    lemma_above(m.nodes, m.nodes[i].depth, i - 1);
    lemma_field_child(m.nodes, p, "attribute"@);
    law_every_occurrence_is_a_reference(m, m.node_text(i), i);
}

/// The numbers below `n`, in order.
pub open spec fn numbers(n: nat) -> Seq<int> {
    Seq::new(n, |i: int| i)
}

/// Node `i` is an identifier that spells `name` and hangs from no member access as
/// its member.
pub open spec fn spells_freely(m: Model, name: Seq<char>, i: int) -> bool {
    &&& m.nodes[i].kind == "identifier"@
    &&& slice_bytes(m.text, m.nodes[i].start_byte, m.nodes[i].end_byte) == name
    &&& !(parent_of(m.nodes, i) matches Some(p) && m.nodes[p].kind == "attribute"@ && field_child(
        m.nodes,
        p,
        "attribute"@,
    ) == Some(i))
}

proof fn lemma_refs_exactly(m: Model, name: Seq<char>, k: int)
    requires
        0 <= k <= m.nodes.len(),
    ensures
        refs_upto(m, name, k) == numbers(m.nodes.len()).take(k).filter(
            |i: int| spells_freely(m, name, i),
        ).map_values(|i: int| (m.nodes[i].start_byte, m.nodes[i].end_byte)),
    decreases k,
{
    let all = numbers(m.nodes.len());
    let p = |i: int| spells_freely(m, name, i);
    let span = |i: int| (m.nodes[i].start_byte, m.nodes[i].end_byte);
    if k > 0 {
        lemma_refs_exactly(m, name, k - 1);
        lemma_filter_take(all, p, k - 1);
        assert(all[k - 1] == k - 1);
        let before = all.take(k - 1).filter(p);
        assert(before.push(k - 1).map_values(span) =~= before.map_values(span).push(span(k - 1)));
    } else {
        reveal(Seq::filter);
        assert(all.take(0) =~= Seq::<int>::empty());
        assert(refs_upto(m, name, k) =~= all.take(k).filter(p).map_values(span));
    }
}

/// The references of a name are the places of the identifiers that spell it freely:
/// all of them, each once, in the order of the tree, and no others.
pub proof fn law_references_are_exact(m: Model, name: Seq<char>)
    ensures
        all_refs(m, name) == numbers(m.nodes.len()).filter(
            |i: int| spells_freely(m, name, i),
        ).map_values(|i: int| (m.nodes[i].start_byte, m.nodes[i].end_byte)),
{
    let all = numbers(m.nodes.len());
    lemma_refs_exactly(m, name, m.nodes.len() as int);
    assert(all.take(m.nodes.len() as int) =~= all);
}

/// The node kind `node` gives a name to the child under `field`, of that kind of
/// symbol.
pub open spec fn declares(node: Seq<char>, field: Seq<char>, kind: SymbolKind) -> bool {
    ||| node == "variable_definition"@ && field == "variable"@ && kind == SymbolKind::Variable
    ||| node == "variable_definition_statement"@ && field == "variable"@ && kind
        == SymbolKind::Variable
    ||| node == "for_statement"@ && field == "counter"@ && kind == SymbolKind::Variable
    ||| node == "for_in_statement"@ && field == "array_element"@ && kind == SymbolKind::Variable
    ||| node == "import"@ && field == "alias"@ && kind == SymbolKind::Variable
    ||| node == "type_definition_statement"@ && field == "name"@ && kind == SymbolKind::Type
    ||| node == "enum_declaration"@ && field == "name"@ && kind == SymbolKind::Enum
    ||| node == "function_declaration_statement"@ && field == "function"@ && kind
        == SymbolKind::Function
}

/// Node `i` stands inside no function, conditional, loop, type or enum.
pub open spec fn stands_outside(m: Model, i: int) -> bool {
    forall|p: int|
        #![trigger m.nodes[p]]
        lies_below(m.nodes, p, i) ==> {
            let kind = m.nodes[p].kind;
            &&& kind != "function_declaration_statement"@
            &&& kind != "if_statement"@
            &&& kind != "switch_statement"@
            &&& kind != "for_statement"@
            &&& kind != "for_in_statement"@
            &&& kind != "while_statement"@
            &&& kind != "type_definition_statement"@
            &&& kind != "enum_declaration"@
        }
}

/// The definition of kind `kind` that the identifier node `c` names.
pub open spec fn definition_at(m: Model, c: int, kind: SymbolKind) -> DefFacts {
    DefFacts {
        name: slice_bytes(m.text, m.nodes[c].start_byte, m.nodes[c].end_byte),
        kind,
        start_byte: m.nodes[c].start_byte,
        end_byte: m.nodes[c].end_byte,
    }
}

proof fn lemma_defs_contain(m: Model, k: int, i: int, x: int)
    requires
        0 <= i < k <= m.nodes.len(),
        0 <= x < defs_at(m, i).len(),
    ensures
        defs_upto(m, k).contains(defs_at(m, i)[x]),
    decreases k,
{
    let before = defs_upto(m, k - 1);
    let d = defs_at(m, i)[x];
    if i < k - 1 {
        lemma_defs_contain(m, k - 1, i, x);
        let y = choose|y: int| 0 <= y < before.len() && before[y] == d;
        assert(defs_upto(m, k)[y] == d);
    } else {
        assert(defs_upto(m, k)[before.len() + x] == d);
    }
}

/// What a declaration at the top level names is among the definitions, under the name
/// that stands in the text.
#[verifier::rlimit(30)]
pub proof fn law_declared_names_are_definitions(
    m: Model,
    i: int,
    field: Seq<char>,
    kind: SymbolKind,
    c: int,
)
    requires
        0 <= i < m.nodes.len(),
        stands_outside(m, i),
        declares(m.nodes[i].kind, field, kind),
        field_child(m.nodes, i, field) == Some(c),
        m.nodes[c].kind == "identifier"@,
    ensures
        all_defs(m).contains(definition_at(m, c, kind)),
{
    lemma_declaration_kinds();
    lemma_outside(m, i);
    assert(names_at(m, i) =~= seq![definition_at(m, c, kind)]);
    assert(defs_at(m, i)[0] == definition_at(m, c, kind));
    lemma_defs_contain(m, m.nodes.len() as int, i, 0);
}

proof fn lemma_list_defs_contain(m: Model, ids: Seq<int>, kind: SymbolKind, k: int, x: int)
    requires
        0 <= x < k <= ids.len(),
        m.nodes[ids[x]].kind == "identifier"@,
    ensures
        list_defs(m, ids, kind, k).contains(definition_at(m, ids[x], kind)),
    decreases k,
{
    let before = list_defs(m, ids, kind, k - 1);
    let d = definition_at(m, ids[x], kind);
    if x < k - 1 {
        lemma_list_defs_contain(m, ids, kind, k - 1, x);
        let y = choose|y: int| 0 <= y < before.len() && before[y] == d;
        assert(list_defs(m, ids, kind, k)[y] == d);
    } else {
        assert(list_defs(m, ids, kind, k)[before.len() as int] == d);
    }
}

/// Every name of a tuple declaration at the top level is among the definitions, as a
/// variable.
pub proof fn law_tuple_names_are_definitions(m: Model, i: int, c: int)
    requires
        m.wf(),
        0 <= i < m.nodes.len(),
        0 <= c < m.nodes.len(),
        stands_outside(m, i),
        m.nodes[i].kind == "tuple_declaration"@ || m.nodes[i].kind
            == "tuple_declaration_statement"@,
        parent_of(m.nodes, c) == Some(i),
        m.nodes[c].field == Some("variables"@),
        m.nodes[c].kind == "identifier"@,
    ensures
        all_defs(m).contains(definition_at(m, c, SymbolKind::Variable)),
{
    lemma_declaration_kinds();
    lemma_outside(m, i);
    law_field_child_is_the_first(m.nodes, i, "variables"@, c);
    let ids = field_children(m.nodes, i, "variables"@);
    let x = choose|x: int| 0 <= x < ids.len() && ids[x] == c;
    let d = definition_at(m, c, SymbolKind::Variable);
    lemma_list_defs_contain(m, ids, SymbolKind::Variable, ids.len() as int, x);
    let names = names_at(m, i);
    let y = choose|y: int| 0 <= y < names.len() && names[y] == d;
    assert(defs_at(m, i)[y] == d);
    lemma_defs_contain(m, m.nodes.len() as int, i, y);
}

/// Every parameter of every function is among the definitions, wherever the function
/// stands.
pub proof fn law_parameters_are_definitions(m: Model, i: int, c: int)
    requires
        m.wf(),
        0 <= i < m.nodes.len(),
        0 <= c < m.nodes.len(),
        m.nodes[i].kind == "function_declaration_statement"@,
        parent_of(m.nodes, c) == Some(i),
        m.nodes[c].field == Some("argument"@),
        m.nodes[c].kind == "identifier"@,
    ensures
        all_defs(m).contains(definition_at(m, c, SymbolKind::Parameter)),
{
    law_field_child_is_the_first(m.nodes, i, "argument"@, c);
    let ids = field_children(m.nodes, i, "argument"@);
    let x = choose|x: int| 0 <= x < ids.len() && ids[x] == c;
    let d = definition_at(m, c, SymbolKind::Parameter);
    lemma_list_defs_contain(m, ids, SymbolKind::Parameter, ids.len() as int, x);
    let list = parameters_at(m, i);
    let y = choose|y: int| 0 <= y < list.len() && list[y] == d;
    let at = defs_at(m, i).len() - list.len() + y;
    assert(defs_at(m, i)[at] == d);
    lemma_defs_contain(m, m.nodes.len() as int, i, at);
}

/// A method at the top level is among the definitions, as a function.
pub proof fn law_methods_are_definitions(m: Model, i: int, c: int)
    requires
        0 <= i < m.nodes.len(),
        stands_outside(m, i),
        m.nodes[i].kind == "function_declaration_statement"@,
        field_child(m.nodes, i, "function"@) is None,
        field_child(m.nodes, i, "method"@) == Some(c),
        m.nodes[c].kind == "identifier"@,
    ensures
        all_defs(m).contains(definition_at(m, c, SymbolKind::Function)),
{
    lemma_declaration_kinds();
    lemma_outside(m, i);
    assert(names_at(m, i) =~= seq![definition_at(m, c, SymbolKind::Function)]);
    assert(defs_at(m, i)[0] == definition_at(m, c, SymbolKind::Function));
    lemma_defs_contain(m, m.nodes.len() as int, i, 0);
}

/// A node that is not nested stands outside every block.
pub proof fn lemma_outside(m: Model, i: int)
    ensures
        stands_outside(m, i) <==> !is_nested(m, i),
{
    if is_nested(m, i) {
        let p = choose|p: int|
            #![trigger m.nodes[p]]
            lies_below(m.nodes, p, i) && opens_scope(m.nodes[p].kind);
        assert(lies_below(m.nodes, p, i));
    }
}

/// Node `i` defines `d` by giving a name to its child `c`.
pub open spec fn defines(m: Model, i: int, c: int, d: DefFacts) -> bool {
    let node = m.nodes[i].kind;
    let field = m.nodes[c].field;
    &&& parent_of(m.nodes, c) == Some(i)
    &&& m.nodes[c].kind == "identifier"@
    &&& d == definition_at(m, c, d.kind)
    &&& {
        ||| d.kind == SymbolKind::Parameter && node == "function_declaration_statement"@ && field
            == Some("argument"@)
        ||| stands_outside(m, i) && (field matches Some(f) && declares(node, f, d.kind))
        ||| stands_outside(m, i) && d.kind == SymbolKind::Function && node
            == "function_declaration_statement"@ && field == Some("method"@)
        ||| stands_outside(m, i) && d.kind == SymbolKind::Variable && (node == "tuple_declaration"@
            || node == "tuple_declaration_statement"@) && field == Some("variables"@)
    }
}

/// `d` is the definition of kind `kind` that a child of node `i` under `field` names.
spec fn names_under(m: Model, i: int, field: Seq<char>, kind: SymbolKind, d: DefFacts) -> bool {
    exists|c: int|
        #![trigger m.nodes[c]]
        {
            &&& 0 <= c < m.nodes.len()
            &&& parent_of(m.nodes, c) == Some(i)
            &&& m.nodes[c].kind == "identifier"@
            &&& m.nodes[c].field == Some(field)
            &&& d == definition_at(m, c, kind)
        }
}

proof fn lemma_field_def_under(m: Model, i: int, field: Seq<char>, kind: SymbolKind)
    requires
        m.wf(),
        0 <= i < m.nodes.len(),
    ensures
        forall|x: int|
            0 <= x < field_def(m, i, field, kind).len() ==> names_under(
                m,
                i,
                field,
                kind,
                #[trigger] field_def(m, i, field, kind)[x],
            ),
{
    let list = children_of(m.nodes, i);
    lemma_first_field(m.nodes, list, field);
    lemma_children(m.nodes, i);
    if let Some(c) = field_child(m.nodes, i, field) {
        let k = choose|k: int| 0 <= k < list.len() && list[k] == c;
        law_parent_of_child(m.nodes, i, k);
        assert(m.nodes[c].field == Some(field));
    }
}

proof fn lemma_list_defs_under(
    m: Model,
    i: int,
    ids: Seq<int>,
    field: Seq<char>,
    kind: SymbolKind,
    k: int,
)
    requires
        0 <= k <= ids.len(),
        forall|x: int|
            0 <= x < ids.len() ==> 0 <= #[trigger] ids[x] < m.nodes.len() && parent_of(
                m.nodes,
                ids[x],
            ) == Some(i) && m.nodes[ids[x]].field == Some(field),
    ensures
        forall|x: int|
            0 <= x < list_defs(m, ids, kind, k).len() ==> names_under(
                m,
                i,
                field,
                kind,
                #[trigger] list_defs(m, ids, kind, k)[x],
            ),
    decreases k,
{
    if k > 0 {
        lemma_list_defs_under(m, i, ids, field, kind, k - 1);
        let c = ids[k - 1];
        assert(m.nodes[c].field == Some(field));
        let one = named_def(m, c, kind);
        assert(one.len() > 0 ==> names_under(m, i, field, kind, one[0]));
        let before = list_defs(m, ids, kind, k - 1);
        let now = list_defs(m, ids, kind, k);
        assert forall|x: int| 0 <= x < now.len() implies names_under(
            m,
            i,
            field,
            kind,
            #[trigger] now[x],
        ) by {
            if x < before.len() {
                assert(now[x] == before[x]);
            }
        }
    }
}

proof fn lemma_field_defs_under(m: Model, i: int, field: Seq<char>, kind: SymbolKind)
    requires
        m.wf(),
        0 <= i < m.nodes.len(),
    ensures
        forall|x: int|
            0 <= x < field_defs(m, i, field, kind).len() ==> names_under(
                m,
                i,
                field,
                kind,
                #[trigger] field_defs(m, i, field, kind)[x],
            ),
{
    let list = children_of(m.nodes, i);
    let p = |c: int| m.nodes[c].field == Some(field);
    let ids = field_children(m.nodes, i, field);
    lemma_filter_members(list, p);
    lemma_children(m.nodes, i);
    assert forall|x: int| 0 <= x < ids.len() implies 0 <= #[trigger] ids[x] < m.nodes.len()
        && parent_of(m.nodes, ids[x]) == Some(i) && m.nodes[ids[x]].field == Some(field) by {
        assert(list.contains(list.filter(p)[x]));
        let k = choose|k: int| 0 <= k < list.len() && list[k] == ids[x];
        law_parent_of_child(m.nodes, i, k);
        list.lemma_filter_pred(p, x);
        assert(i < list[k] < end_of(m.nodes, i));
    }
    lemma_list_defs_under(m, i, ids, field, kind, ids.len() as int);
}

/// Node `i` defines `d`.
spec fn defined_at(m: Model, i: int, d: DefFacts) -> bool {
    exists|c: int| 0 <= c < m.nodes.len() && #[trigger] defines(m, i, c, d)
}

proof fn lemma_under_defines(m: Model, i: int, field: Seq<char>, kind: SymbolKind, d: DefFacts)
    requires
        names_under(m, i, field, kind, d),
        ({
            let node = m.nodes[i].kind;
            ||| kind == SymbolKind::Parameter && node == "function_declaration_statement"@ && field
                == "argument"@
            ||| stands_outside(m, i) && declares(node, field, kind)
            ||| stands_outside(m, i) && kind == SymbolKind::Function && node
                == "function_declaration_statement"@ && field == "method"@
            ||| stands_outside(m, i) && kind == SymbolKind::Variable && (node
                == "tuple_declaration"@ || node == "tuple_declaration_statement"@) && field
                == "variables"@
        }),
    ensures
        defined_at(m, i, d),
{
    let c = choose|c: int|
        #![trigger m.nodes[c]]
        {
            &&& 0 <= c < m.nodes.len()
            &&& parent_of(m.nodes, c) == Some(i)
            &&& m.nodes[c].kind == "identifier"@
            &&& m.nodes[c].field == Some(field)
            &&& d == definition_at(m, c, kind)
        };
    assert(defines(m, i, c, d));
}

proof fn lemma_names_defined(m: Model, i: int, x: int)
    requires
        m.wf(),
        0 <= i < m.nodes.len(),
        stands_outside(m, i),
        0 <= x < names_at(m, i).len(),
    ensures
        defined_at(m, i, names_at(m, i)[x]),
{
    lemma_declaration_kinds();
    let kind = m.nodes[i].kind;
    let d = names_at(m, i)[x];
    if kind == "variable_definition"@ || kind == "variable_definition_statement"@ {
        lemma_field_def_under(m, i, "variable"@, SymbolKind::Variable);
        lemma_under_defines(m, i, "variable"@, SymbolKind::Variable, d);
    } else if kind == "function_declaration_statement"@ {
        lemma_field_def_under(m, i, "function"@, SymbolKind::Function);
        lemma_field_def_under(m, i, "method"@, SymbolKind::Function);
        if field_child(m.nodes, i, "function"@) is Some {
            assert(names_at(m, i) == field_def(m, i, "function"@, SymbolKind::Function));
            lemma_under_defines(m, i, "function"@, SymbolKind::Function, d);
        } else {
            lemma_under_defines(m, i, "method"@, SymbolKind::Function, d);
        }
    } else if kind == "for_statement"@ {
        lemma_field_def_under(m, i, "counter"@, SymbolKind::Variable);
        lemma_under_defines(m, i, "counter"@, SymbolKind::Variable, d);
    } else if kind == "import"@ {
        lemma_field_def_under(m, i, "alias"@, SymbolKind::Variable);
        lemma_under_defines(m, i, "alias"@, SymbolKind::Variable, d);
    } else if kind == "type_definition_statement"@ {
        lemma_field_def_under(m, i, "name"@, SymbolKind::Type);
        lemma_under_defines(m, i, "name"@, SymbolKind::Type, d);
    } else if kind == "enum_declaration"@ {
        lemma_field_def_under(m, i, "name"@, SymbolKind::Enum);
        lemma_under_defines(m, i, "name"@, SymbolKind::Enum, d);
    } else if kind == "tuple_declaration"@ || kind == "tuple_declaration_statement"@ {
        lemma_field_defs_under(m, i, "variables"@, SymbolKind::Variable);
        lemma_under_defines(m, i, "variables"@, SymbolKind::Variable, d);
    } else {
        lemma_field_def_under(m, i, "array_element"@, SymbolKind::Variable);
        lemma_under_defines(m, i, "array_element"@, SymbolKind::Variable, d);
    }
}

proof fn lemma_defs_defined(m: Model, k: int, x: int)
    requires
        m.wf(),
        0 <= k <= m.nodes.len(),
        0 <= x < defs_upto(m, k).len(),
    ensures
        exists|i: int| 0 <= i < k && #[trigger] defined_at(m, i, defs_upto(m, k)[x]),
    decreases k,
{
    let before = defs_upto(m, k - 1);
    let d = defs_upto(m, k)[x];
    if x < before.len() {
        lemma_defs_defined(m, k - 1, x);
        assert(d == before[x]);
        let i = choose|i: int| 0 <= i < k - 1 && #[trigger] defined_at(m, i, before[x]);
        assert(defined_at(m, i, d));
    } else {
        let i = k - 1;
        lemma_outside(m, i);
        assert(d == defs_at(m, i)[x - before.len()]);
        let list = parameters_at(m, i);
        let n = defs_at(m, i).len() - list.len();
        if x - before.len() < n {
            assert(d == names_at(m, i)[x - before.len()]);
            lemma_names_defined(m, i, x - before.len());
        } else {
            assert(d == list[x - before.len() - n]);
            lemma_field_defs_under(m, i, "argument"@, SymbolKind::Parameter);
            lemma_under_defines(m, i, "argument"@, SymbolKind::Parameter, d);
        }
        assert(defined_at(m, i, d));
    }
}

/// Every definition comes from a declaration of the document: a child of a node that
/// declares names under that field; parameters apart, one at the top level.
pub proof fn law_definitions_come_from_declarations(m: Model, x: int)
    requires
        m.wf(),
        0 <= x < all_defs(m).len(),
    ensures
        exists|i: int, c: int|
            0 <= i < m.nodes.len() && 0 <= c < m.nodes.len() && #[trigger] defines(
                m,
                i,
                c,
                all_defs(m)[x],
            ),
{
    let d = all_defs(m)[x];
    lemma_defs_defined(m, m.nodes.len() as int, x);
    let i = choose|i: int| 0 <= i < m.nodes.len() && #[trigger] defined_at(m, i, d);
    let c = choose|c: int| 0 <= c < m.nodes.len() && #[trigger] defines(m, i, c, d);
    assert(defines(m, i, c, d));
}

/// The name of a member access is that of its object, a dot, and the member; an
/// identifier is its own name; other expressions have none.
pub proof fn law_dotted_names(m: Model, i: int, object: int, member: int)
    requires
        0 <= i < m.nodes.len(),
    ensures
        m.nodes[i].kind == "identifier"@ ==> dotted_of(m, i) == Some(
            slice_bytes(m.text, m.nodes[i].start_byte, m.nodes[i].end_byte),
        ),
        m.nodes[i].kind == "attribute"@ && field_child(m.nodes, i, "object"@) == Some(object)
            && field_child(m.nodes, i, "attribute"@) == Some(member) ==> match dotted_of(
            m,
            object,
        ) {
            Some(name) => dotted_of(m, i) == Some(
                name + "."@ + slice_bytes(
                    m.text,
                    m.nodes[member].start_byte,
                    m.nodes[member].end_byte,
                ),
            ),
            None => dotted_of(m, i) is None,
        },
        m.nodes[i].kind != "identifier"@ && m.nodes[i].kind != "attribute"@ ==> dotted_of(m, i)
            is None,
{
    lemma_field_child(m.nodes, i, "object"@);
    reveal_with_fuel(dotted_of, 2);
    reveal_strlit("identifier");
    reveal_strlit("attribute");
    assert("identifier"@.len() == 10 && "attribute"@.len() == 9);
}

/// A call is named by what it calls: `f(..)` by the identifier, `ns.f(..)` by both
/// names with a dot between them. What is no call has no such name.
pub proof fn law_calls_are_named_by_what_they_call(m: Model, i: int, f: int)
    requires
        0 <= i < m.nodes.len(),
    ensures
        m.nodes[i].kind != "call"@ ==> call_name(m, i) is None,
        m.nodes[i].kind == "call"@ && field_child(m.nodes, i, "function"@) == Some(f)
            && m.nodes[f].kind == "identifier"@ ==> call_name(m, i) == Some(
            slice_bytes(m.text, m.nodes[f].start_byte, m.nodes[f].end_byte),
        ),
        m.nodes[i].kind == "call"@ && field_child(m.nodes, i, "function"@) == Some(f)
            && m.nodes[f].kind == "attribute"@ ==> match (
            field_child(m.nodes, f, "object"@),
            field_child(m.nodes, f, "attribute"@),
        ) {
            (Some(object), Some(member)) => m.nodes[object].kind == "identifier"@ ==> call_name(m, i)
                == Some(
                slice_bytes(m.text, m.nodes[object].start_byte, m.nodes[object].end_byte) + "."@
                    + slice_bytes(m.text, m.nodes[member].start_byte, m.nodes[member].end_byte),
            ),
            _ => call_name(m, i) is None,
        },
{
    if let Some(g) = field_child(m.nodes, i, "function"@) {
        lemma_field_child(m.nodes, i, "function"@);
        lemma_field_child(m.nodes, g, "object"@);
        reveal_strlit("identifier");
        reveal_strlit("attribute");
        assert("identifier"@.len() == 10 && "attribute"@.len() == 9);
        reveal_with_fuel(dotted_of, 2);
    }
}

/// The kinds of nodes that declare something, told apart by their lengths and first
/// letters.
proof fn lemma_declaration_kinds()
    ensures
        "variable_definition"@.len() == 19,
        "variable_definition_statement"@.len() == 29,
        "function_declaration_statement"@.len() == 30,
        "for_statement"@.len() == 13,
        "import"@.len() == 6,
        "type_definition_statement"@.len() == 25,
        "enum_declaration"@.len() == 16,
        "enum_declaration"@[0] == 'e',
        "tuple_declaration"@.len() == 17,
        "tuple_declaration_statement"@.len() == 27,
        "for_in_statement"@.len() == 16,
        "for_in_statement"@[0] == 'f',
{
    reveal_strlit("variable_definition");
    reveal_strlit("variable_definition_statement");
    reveal_strlit("function_declaration_statement");
    reveal_strlit("for_statement");
    reveal_strlit("import");
    reveal_strlit("type_definition_statement");
    reveal_strlit("enum_declaration");
    reveal_strlit("tuple_declaration");
    reveal_strlit("tuple_declaration_statement");
    reveal_strlit("for_in_statement");
}

/// `d` is what `named_def` says of some child of node `i`.
spec fn names_child(m: Model, i: int, d: DefFacts) -> bool {
    exists|c: int|
        #![trigger m.nodes[c]]
        {
            &&& children_of(m.nodes, i).contains(c)
            &&& m.nodes[c].kind == "identifier"@
            &&& d.name == m.node_text(c)
            &&& d.start_byte == m.nodes[c].start_byte
            &&& d.end_byte == m.nodes[c].end_byte
        }
}

proof fn lemma_field_def_child(m: Model, i: int, field: Seq<char>, kind: SymbolKind)
    requires
        0 <= i < m.nodes.len(),
    ensures
        forall|x: int|
            0 <= x < field_def(m, i, field, kind).len() ==> names_child(
                m,
                i,
                #[trigger] field_def(m, i, field, kind)[x],
            ),
{
    lemma_field_in_children(m, i, field);
    if let Some(c) = field_child(m.nodes, i, field) {
        assert(m.nodes[c] == m.nodes[c]);
    }
}

proof fn lemma_field_in_children(m: Model, i: int, field: Seq<char>)
    requires
        0 <= i < m.nodes.len(),
    ensures
        field_child(m.nodes, i, field) matches Some(c) ==> children_of(m.nodes, i).contains(c),
{
    lemma_first_field(m.nodes, children_of(m.nodes, i), field);
}

proof fn lemma_list_defs_child(m: Model, i: int, ids: Seq<int>, kind: SymbolKind, k: int)
    requires
        0 <= k <= ids.len(),
        forall|x: int| 0 <= x < ids.len() ==> children_of(m.nodes, i).contains(#[trigger] ids[x]),
    ensures
        forall|x: int|
            0 <= x < list_defs(m, ids, kind, k).len() ==> names_child(
                m,
                i,
                #[trigger] list_defs(m, ids, kind, k)[x],
            ),
    decreases k,
{
    if k > 0 {
        lemma_list_defs_child(m, i, ids, kind, k - 1);
        let c = ids[k - 1];
        assert(m.nodes[c] == m.nodes[c]);
        let one = named_def(m, c, kind);
        assert(one.len() > 0 ==> names_child(m, i, one[0]));
        let before = list_defs(m, ids, kind, k - 1);
        let now = list_defs(m, ids, kind, k);
        assert forall|x: int| 0 <= x < now.len() implies names_child(m, i, #[trigger] now[x]) by {
            if x < before.len() {
                assert(now[x] == before[x]);
            }
        }
    }
}

proof fn lemma_field_defs_child(m: Model, i: int, field: Seq<char>, kind: SymbolKind)
    requires
        0 <= i < m.nodes.len(),
    ensures
        forall|x: int|
            0 <= x < field_defs(m, i, field, kind).len() ==> names_child(
                m,
                i,
                #[trigger] field_defs(m, i, field, kind)[x],
            ),
{
    let list = children_of(m.nodes, i);
    let p = |c: int| m.nodes[c].field == Some(field);
    lemma_filter_members(list, p);
    lemma_list_defs_child(
        m,
        i,
        field_children(m.nodes, i, field),
        kind,
        field_children(m.nodes, i, field).len() as int,
    );
}

proof fn lemma_names_at_child(m: Model, i: int)
    requires
        0 <= i < m.nodes.len(),
    ensures
        forall|x: int|
            0 <= x < names_at(m, i).len() ==> names_child(m, i, #[trigger] names_at(m, i)[x]),
        names_at(m, i).len() > 0 ==> m.nodes[i].kind != "attribute"@,
{
    reveal_strlit("attribute");
    reveal_strlit("variable_definition");
    reveal_strlit("variable_definition_statement");
    reveal_strlit("function_declaration_statement");
    reveal_strlit("for_statement");
    reveal_strlit("import");
    reveal_strlit("type_definition_statement");
    reveal_strlit("enum_declaration");
    reveal_strlit("tuple_declaration");
    reveal_strlit("tuple_declaration_statement");
    reveal_strlit("for_in_statement");
    let kind = m.nodes[i].kind;
    if kind == "attribute"@ {
        assert(kind.len() == 9);
        assert(kind[0] == 'a');
        assert(names_at(m, i) =~= Seq::<DefFacts>::empty());
    }
    lemma_field_def_child(m, i, "variable"@, SymbolKind::Variable);
    lemma_field_def_child(m, i, "function"@, SymbolKind::Function);
    lemma_field_def_child(m, i, "method"@, SymbolKind::Function);
    lemma_field_def_child(m, i, "counter"@, SymbolKind::Variable);
    lemma_field_def_child(m, i, "alias"@, SymbolKind::Variable);
    lemma_field_def_child(m, i, "name"@, SymbolKind::Type);
    lemma_field_def_child(m, i, "name"@, SymbolKind::Enum);
    lemma_field_def_child(m, i, "array_element"@, SymbolKind::Variable);
    lemma_field_defs_child(m, i, "variables"@, SymbolKind::Variable);
    let name = function_name_def(m, i);
    assert forall|x: int| 0 <= x < name.len() implies names_child(m, i, #[trigger] name[x]) by {
        if field_child(m.nodes, i, "function"@) is Some {
            assert(name == field_def(m, i, "function"@, SymbolKind::Function));
        }
    }
}

proof fn lemma_defs_at_child(m: Model, i: int)
    requires
        0 <= i < m.nodes.len(),
    ensures
        forall|x: int|
            0 <= x < defs_at(m, i).len() ==> names_child(m, i, #[trigger] defs_at(m, i)[x]),
        defs_at(m, i).len() > 0 ==> m.nodes[i].kind != "attribute"@,
{
    reveal_strlit("attribute");
    reveal_strlit("function_declaration_statement");
    lemma_names_at_child(m, i);
    lemma_field_defs_child(m, i, "argument"@, SymbolKind::Parameter);
    let names = if is_nested(m, i) {
        Seq::empty()
    } else {
        names_at(m, i)
    };
    let here = defs_at(m, i);
    assert forall|x: int| 0 <= x < here.len() implies names_child(m, i, #[trigger] here[x]) by {
        if x < names.len() {
            assert(here[x] == names_at(m, i)[x]);
        } else {
            assert(here[x] == parameters_at(m, i)[x - names.len()]);
        }
    }
    if m.nodes[i].kind == "attribute"@ {
        assert(m.nodes[i].kind.len() == 9);
        assert(here =~= Seq::<DefFacts>::empty());
    }
}

proof fn lemma_definition_is_reference(m: Model, k: int, x: int)
    requires
        m.wf(),
        0 <= k <= m.nodes.len(),
        0 <= x < defs_upto(m, k).len(),
    ensures
        all_refs(m, defs_upto(m, k)[x].name).contains(
            (defs_upto(m, k)[x].start_byte, defs_upto(m, k)[x].end_byte),
        ),
    decreases k,
{
    let before = defs_upto(m, k - 1);
    if x < before.len() {
        lemma_definition_is_reference(m, k - 1, x);
        assert(defs_upto(m, k)[x] == before[x]);
    } else {
        let i = k - 1;
        let here = defs_at(m, i);
        let d = here[x - before.len()];
        assert(defs_upto(m, k)[x] == d);
        lemma_defs_at_child(m, i);
        assert(names_child(m, i, d));
        let c = choose|c: int|
            #![trigger m.nodes[c]]
            {
                &&& children_of(m.nodes, i).contains(c)
                &&& m.nodes[c].kind == "identifier"@
                &&& d.name == m.node_text(c)
                &&& d.start_byte == m.nodes[c].start_byte
                &&& d.end_byte == m.nodes[c].end_byte
            };
        let y = choose|y: int|
            0 <= y < children_of(m.nodes, i).len() && children_of(m.nodes, i)[y] == c;
        law_parent_of_child(m.nodes, i, y);
        lemma_children(m.nodes, i);
        assert(is_reference(m, d.name, c));
        law_references_are_complete(m, d.name, c);
    }
}

/// A definition is a reference of its own name: a name that is defined has at
/// least one occurrence.
pub proof fn law_definition_is_reference(m: Model, x: int)
    requires
        m.wf(),
        0 <= x < all_defs(m).len(),
    ensures
        all_refs(m, all_defs(m)[x].name).contains(
            (all_defs(m)[x].start_byte, all_defs(m)[x].end_byte),
        ),
{
    lemma_definition_is_reference(m, m.nodes.len() as int, x);
}

proof fn lemma_defs_upto_child(m: Model, k: int, x: int)
    requires
        0 <= k <= m.nodes.len(),
        0 <= x < defs_upto(m, k).len(),
    ensures
        exists|i: int|
            0 <= i < k && names_child(m, i, defs_upto(m, k)[x]) && #[trigger] m.nodes[i]
                == m.nodes[i],
    decreases k,
{
    let before = defs_upto(m, k - 1);
    if x < before.len() {
        lemma_defs_upto_child(m, k - 1, x);
        assert(defs_upto(m, k)[x] == before[x]);
    } else {
        let i = k - 1;
        lemma_defs_at_child(m, i);
        assert(defs_upto(m, k)[x] == defs_at(m, i)[x - before.len()]);
        assert(names_child(m, i, defs_upto(m, k)[x]));
        assert(m.nodes[i] == m.nodes[i]);
    }
}

/// What a node defines comes before, in the text, what a node after its subtree
/// defines.
pub proof fn law_definitions_in_source_order(m: Model, i: int, x: int, j: int, y: int)
    requires
        m.wf(),
        0 <= i < end_of(m.nodes, i) <= j < m.nodes.len(),
        0 <= x < defs_at(m, i).len(),
        0 <= y < defs_at(m, j).len(),
    ensures
        defs_at(m, i)[x].start_byte <= defs_at(m, i)[x].end_byte <= defs_at(m, j)[y].start_byte,
{
    reveal(in_text_order);
    lemma_defs_at_child(m, i);
    lemma_defs_at_child(m, j);
    lemma_children(m.nodes, i);
    lemma_children(m.nodes, j);
    let d = defs_at(m, i)[x];
    let e = defs_at(m, j)[y];
    assert(names_child(m, i, d) && names_child(m, j, e));
    let a = choose|a: int|
        #![trigger m.nodes[a]]
        children_of(m.nodes, i).contains(a) && d.start_byte == m.nodes[a].start_byte && d.end_byte
            == m.nodes[a].end_byte;
    let b = choose|b: int|
        #![trigger m.nodes[b]]
        children_of(m.nodes, j).contains(b) && e.start_byte == m.nodes[b].start_byte;
    let u = choose|u: int|
        0 <= u < children_of(m.nodes, i).len() && children_of(m.nodes, i)[u] == a;
    let v = choose|v: int|
        0 <= v < children_of(m.nodes, j).len() && children_of(m.nodes, j)[v] == b;
    assert(children_of(m.nodes, i)[u] < children_of(m.nodes, j)[v]);
    lemma_end_below(m.nodes, i, a);
    assert(m.nodes[a].end_byte <= m.nodes[b].start_byte);
    assert(covers(m.text, m.nodes[a]));
    reveal(covers);
}

proof fn lemma_refs_in_order(m: Model, name: Seq<char>, k: int)
    requires
        m.wf(),
        0 <= k <= m.nodes.len(),
    ensures
        forall|x: int|
            0 <= x < refs_upto(m, name, k).len() ==> exists|i: int|
                0 <= i < k && (#[trigger] refs_upto(m, name, k)[x]).0
                    == (#[trigger] m.nodes[i]).start_byte,
        forall|x: int, y: int|
            #![trigger refs_upto(m, name, k)[x], refs_upto(m, name, k)[y]]
            0 <= x <= y < refs_upto(m, name, k).len() ==> refs_upto(m, name, k)[x].0 <= refs_upto(
                m,
                name,
                k,
            )[y].0,
    decreases k,
{
    reveal(in_text_order);
    if k > 0 {
        lemma_refs_in_order(m, name, k - 1);
        let before = refs_upto(m, name, k - 1);
        let now = refs_upto(m, name, k);
        assert forall|x: int| 0 <= x < now.len() implies exists|i: int|
            0 <= i < k && (#[trigger] now[x]).0 == (#[trigger] m.nodes[i]).start_byte by {
            if x < before.len() {
                assert(now[x] == before[x]);
                let i = choose|i: int|
                    0 <= i < k - 1 && before[x].0 == (#[trigger] m.nodes[i]).start_byte;
                assert(now[x].0 == m.nodes[i].start_byte);
            } else {
                assert(now[x].0 == m.nodes[k - 1].start_byte);
            }
        }
        assert forall|x: int, y: int|
            #![trigger now[x], now[y]]
            0 <= x <= y < now.len() implies now[x].0 <= now[y].0 by {
            if y < before.len() {
                assert(now[x] == before[x] && now[y] == before[y]);
            } else {
                let i = choose|i: int|
                    0 <= i < k && now[x].0 == (#[trigger] m.nodes[i]).start_byte;
                assert(m.nodes[i].start_byte <= m.nodes[k - 1].start_byte);
            }
        }
    }
}

/// References stand in source order.
pub proof fn law_references_in_source_order(m: Model, name: Seq<char>, x: int, y: int)
    requires
        m.wf(),
        0 <= x <= y < all_refs(m, name).len(),
    ensures
        all_refs(m, name)[x].0 <= all_refs(m, name)[y].0,
{
    lemma_refs_in_order(m, name, m.nodes.len() as int);
}

/// A definition is at an identifier node of the tree.
pub proof fn law_definitions_are_at_identifiers(m: Model, x: int)
    requires
        0 <= x < all_defs(m).len(),
    ensures
        exists|c: int|
            0 <= c < m.nodes.len() && (#[trigger] m.nodes[c]).kind == "identifier"@
                && all_defs(m)[x].start_byte == m.nodes[c].start_byte && all_defs(m)[x].end_byte
                == m.nodes[c].end_byte,
{
    let d = all_defs(m)[x];
    lemma_defs_upto_child(m, m.nodes.len() as int, x);
    let i = choose|i: int|
        0 <= i < m.nodes.len() && names_child(m, i, d) && #[trigger] m.nodes[i] == m.nodes[i];
    let list = children_of(m.nodes, i);
    let c = choose|c: int|
        #![trigger m.nodes[c]]
        {
            &&& list.contains(c)
            &&& m.nodes[c].kind == "identifier"@
            &&& d.name == m.node_text(c)
            &&& d.start_byte == m.nodes[c].start_byte
            &&& d.end_byte == m.nodes[c].end_byte
        };
    let y = choose|y: int| 0 <= y < list.len() && list[y] == c;
    lemma_children(m.nodes, i);
    assert(i < list[y] < m.nodes.len());
}

// ---------------------------------------------------------------------------
// Finding the symbols
// ---------------------------------------------------------------------------

/// All user symbol definitions: top-level variables/functions/types/enums plus
/// function parameters.
pub fn definitions(doc: &Document) -> (r: Vec<SymbolDef>)
    requires
        doc.wf(),
    ensures
        views(r@) == all_defs(doc@),
{
    let mut out: Vec<SymbolDef> = Vec::new();
    let mut i: usize = 0;
    proof {
        lemma_views_empty::<SymbolDef>();
    }
    while i < doc.tree().len()
        invariant
            doc.wf(),
            i <= doc@.nodes.len(),
            views(out@) == defs_upto(doc@, i as int),
        decreases doc@.nodes.len() - i,
    {
        collect_defs(doc, i, &mut out);
        i = i + 1;
    }
    out
}

/// Whether node `i` stands inside a function, a conditional, a loop, a type or an
/// enum.
pub fn is_nested_node(doc: &Document, i: usize) -> (r: bool)
    requires
        doc.wf(),
        i < doc@.nodes.len(),
    ensures
        r == is_nested(doc@, i as int),
{
    let ghost m = doc@;
    let mut at: usize = i;
    loop
        invariant
            doc.wf(),
            m == doc@,
            at <= i < m.nodes.len(),
            is_nested(m, i as int) == is_nested(m, at as int),
        decreases at,
    {
        proof {
            lemma_nested(m, at as int);
        }
        match parent(doc.tree(), at) {
            Some(p) => {
                let node = &doc.tree()[p];
                proof {
                    assert(node@ == m.nodes[p as int]);
                }
                if node.is("function_declaration_statement") || node.is("if_statement") || node.is(
                    "switch_statement",
                ) || node.is("for_statement") || node.is("for_in_statement") || node.is(
                    "while_statement",
                ) || node.is("type_definition_statement") || node.is("enum_declaration") {
                    return true;
                }
                at = p;
            },
            None => {
                return false;
            },
        }
    }
}

/// Append the definitions that node `i` makes.
fn collect_defs(doc: &Document, i: usize, out: &mut Vec<SymbolDef>)
    requires
        doc.wf(),
        i < doc@.nodes.len(),
    ensures
        views(final(out)@) == views(old(out)@) + defs_at(doc@, i as int),
{
    let node = &doc.tree()[i];
    proof {
        assert(node@ == doc@.nodes[i as int]);
        lemma_views_empty::<SymbolDef>();
    }
    let ghost start = views(out@);
    let mut names: Vec<SymbolDef> = Vec::new();
    collect_names(doc, i, &mut names);
    let ghost named = if is_nested(doc@, i as int) {
        Seq::empty()
    } else {
        names_at(doc@, i as int)
    };
    proof {
        assert(views(names@) =~= names_at(doc@, i as int));
        assert(views(names@).len() == names@.len());
    }
    if names.len() > 0 && !is_nested_node(doc, i) {
        let ghost own = names@;
        out.append(&mut names);
        proof {
            assert(views(out@) =~= start + views(own));
        }
    }
    proof {
        assert(views(out@) =~= start + named);
    }
    if node.is("function_declaration_statement") {
        push_fields(doc, i, "argument", SymbolKind::Parameter, out);
    }
    proof {
        assert(views(out@) =~= start + defs_at(doc@, i as int));
    }
}

/// Append the names that node `i` itself gives.
fn collect_names(doc: &Document, i: usize, out: &mut Vec<SymbolDef>)
    requires
        doc.wf(),
        i < doc@.nodes.len(),
    ensures
        views(final(out)@) == views(old(out)@) + names_at(doc@, i as int),
{
    let node = &doc.tree()[i];
    proof {
        assert(node@ == doc@.nodes[i as int]);
    }
    if node.is("variable_definition") || node.is("variable_definition_statement") {
        push_field(doc, i, "variable", SymbolKind::Variable, out);
    } else if node.is("function_declaration_statement") {
        match child_by_field(doc.tree(), i, "function") {
            Some(id) => push(doc, id, SymbolKind::Function, out),
            None => push_field(doc, i, "method", SymbolKind::Function, out),
        }
    } else if node.is("for_statement") {
        push_field(doc, i, "counter", SymbolKind::Variable, out);
    } else if node.is("import") {
        push_field(doc, i, "alias", SymbolKind::Variable, out);
    } else if node.is("type_definition_statement") {
        push_field(doc, i, "name", SymbolKind::Type, out);
    } else if node.is("enum_declaration") {
        push_field(doc, i, "name", SymbolKind::Enum, out);
    } else if node.is("tuple_declaration") || node.is("tuple_declaration_statement") {
        push_fields(doc, i, "variables", SymbolKind::Variable, out);
    } else if node.is("for_in_statement") {
        push_field(doc, i, "array_element", SymbolKind::Variable, out);
    } else {
        proof {
            assert(views(out@) =~= views(out@) + names_at(doc@, i as int));
        }
    }
}

fn push_field(doc: &Document, i: usize, field: &str, kind: SymbolKind, out: &mut Vec<SymbolDef>)
    requires
        doc.wf(),
        i < doc@.nodes.len(),
    ensures
        views(final(out)@) == views(old(out)@) + field_def(doc@, i as int, field@, kind),
{
    match child_by_field(doc.tree(), i, field) {
        Some(id) => push(doc, id, kind, out),
        None => {
            proof {
                assert(views(out@) =~= views(out@) + Seq::<DefFacts>::empty());
            }
        },
    }
}

fn push_fields(doc: &Document, i: usize, field: &str, kind: SymbolKind, out: &mut Vec<SymbolDef>)
    requires
        doc.wf(),
        i < doc@.nodes.len(),
    ensures
        views(final(out)@) == views(old(out)@) + field_defs(doc@, i as int, field@, kind),
{
    let ids = children_by_field(doc.tree(), i, field);
    let mut k: usize = 0;
    let ghost start = views(out@);
    proof {
        assert(start =~= start + list_defs(doc@, indices(ids@), kind, 0));
    }
    while k < ids.len()
        invariant
            doc.wf(),
            k <= ids@.len(),
            forall|x: int| 0 <= x < ids@.len() ==> i < #[trigger] ids@[x] < doc@.nodes.len(),
            views(out@) == start + list_defs(doc@, indices(ids@), kind, k as int),
        decreases ids@.len() - k,
    {
        let ghost before = views(out@);
        push(doc, ids[k], kind, out);
        proof {
            assert(indices(ids@)[k as int] == ids@[k as int]);
            assert(views(out@) =~= start + list_defs(doc@, indices(ids@), kind, k + 1));
        }
        k = k + 1;
    }
}

fn push(doc: &Document, id: usize, kind: SymbolKind, out: &mut Vec<SymbolDef>)
    requires
        doc.wf(),
        id < doc@.nodes.len(),
    ensures
        views(final(out)@) == views(old(out)@) + named_def(doc@, id as int, kind),
{
    let node = &doc.tree()[id];
    proof {
        assert(node@ == doc@.nodes[id as int]);
    }
    if !node.is("identifier") {
        proof {
            assert(views(out@) =~= views(out@) + Seq::<DefFacts>::empty());
        }
        return;
    }
    let ghost before = out@;
    let def = SymbolDef {
        name: doc.node_text(id).to_owned(),
        kind,
        start_byte: node.start_byte,
        end_byte: node.end_byte,
    };
    proof {
        lemma_views_push(before, def);
        assert(views(before).push(def@) =~= views(before) + named_def(doc@, id as int, kind));
    }
    out.push(def);
}

/// The identifier `(name, start_byte, end_byte)` under `byte`, if the cursor is
/// on an `identifier` node.
pub fn identifier_at(doc: &Document, byte: usize) -> (r: Option<(String, usize, usize)>)
    requires
        doc.wf(),
    ensures
        match r {
            Some((name, start, end)) => identifier_of(doc@, byte as int) == Some(
                (name@, start as int, end as int),
            ),
            None => identifier_of(doc@, byte as int) is None,
        },
{
    let i: usize = doc.named_node(byte);
    let node = &doc.tree()[i];
    proof {
        assert(node@ == doc@.nodes[i as int]);
    }
    if !node.is("identifier") {
        return None;
    }
    Some((doc.node_text(i).to_owned(), node.start_byte, node.end_byte))
}

/// The name that an expression node spells.
pub fn dotted_name(doc: &Document, i: usize) -> (r: Option<String>)
    requires
        doc.wf(),
        i < doc@.nodes.len(),
    ensures
        opt_view(r) == dotted_of(doc@, i as int),
    decreases doc@.nodes.len() - i,
{
    let node = &doc.tree()[i];
    proof {
        assert(node@ == doc@.nodes[i as int]);
    }
    if node.is("identifier") {
        Some(doc.node_text(i).to_owned())
    } else if node.is("attribute") {
        match (
            child_by_field(doc.tree(), i, "object"),
            child_by_field(doc.tree(), i, "attribute"),
        ) {
            (Some(object), Some(member)) => match dotted_name(doc, object) {
                Some(name) => Some(concat3(name.as_str(), ".", doc.node_text(member))),
                None => None,
            },
            _ => None,
        }
    } else {
        None
    }
}

/// The name of the function that node `i` calls, where it is a call of a named
/// function.
pub fn called_name(doc: &Document, i: usize) -> (r: Option<String>)
    requires
        doc.wf(),
        i < doc@.nodes.len(),
    ensures
        opt_view(r) == call_name(doc@, i as int),
{
    let node = &doc.tree()[i];
    proof {
        assert(node@ == doc@.nodes[i as int]);
    }
    if node.is("call") {
        match child_by_field(doc.tree(), i, "function") {
            Some(f) => dotted_name(doc, f),
            None => None,
        }
    } else {
        None
    }
}

/// Spans, as integers.
pub open spec fn span_views(s: Seq<(usize, usize)>) -> Seq<(int, int)> {
    s.map_values(|p: (usize, usize)| (p.0 as int, p.1 as int))
}

/// Whether node `i` is the member side of a member access.
pub fn is_member_node(doc: &Document, i: usize) -> (r: bool)
    requires
        doc.wf(),
        i < doc@.nodes.len(),
    ensures
        r == is_member(doc@, i as int),
{
    match parent(doc.tree(), i) {
        Some(p) => {
            let node = &doc.tree()[p];
            proof {
                assert(node@ == doc@.nodes[p as int]);
            }
            if node.is("attribute") {
                match child_by_field(doc.tree(), p, "attribute") {
                    Some(c) => c == i,
                    None => false,
                }
            } else {
                false
            }
        },
        None => false,
    }
}

/// Byte ranges of every `identifier` whose text == `name`, excluding the member
/// side of a member access (`obj.MEMBER` — only `obj` is a free reference).
pub fn references(doc: &Document, name: &str) -> (r: Vec<(usize, usize)>)
    requires
        doc.wf(),
    ensures
        span_views(r@) == all_refs(doc@, name@),
{
    let mut out: Vec<(usize, usize)> = Vec::new();
    let mut i: usize = 0;
    proof {
        assert(span_views(out@) =~= Seq::<(int, int)>::empty());
    }
    while i < doc.tree().len()
        invariant
            doc.wf(),
            i <= doc@.nodes.len(),
            span_views(out@) == refs_upto(doc@, name@, i as int),
        decreases doc@.nodes.len() - i,
    {
        let node = &doc.tree()[i];
        proof {
            assert(node@ == doc@.nodes[i as int]);
        }
        if node.is("identifier") && str_eq(doc.node_text(i), name) && !is_member_node(doc, i) {
            let ghost before = out@;
            out.push((node.start_byte, node.end_byte));
            proof {
                assert(span_views(out@) =~= span_views(before).push(
                    (node.start_byte as int, node.end_byte as int),
                ));
            }
        }
        i = i + 1;
    }
    out
}

}
