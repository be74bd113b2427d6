//! Semantic tokens, delta-encoded.

use vstd::prelude::*;
use vstd::string::*;

use crate::builtins::{constant, function, variable, Builtins};
use crate::document::Document;
use crate::lsp::{byte_position, place, SemanticToken, SemanticTokensLegend};
use crate::sorting::{
    in_order, insert_after, is_order, law_sort_orders, lemma_insert_at, stable_sort,
};
use crate::strings::{
    byte_len, lemma_byte_len_take, lemma_slice_take, lemma_unit_len_bound, str_eq, unit_len,
    utf16_len, views,
};
use crate::symbols::{all_defs, definitions, DefFacts, SymbolDef, SymbolKind};
use crate::syntax::{
    child_by_field, end_of, field_child, lemma_below_end, lies_below, parent, parent_of, subtree_end,
    Model,
};

verus! {

// Indices into the token types of the legend.
pub const T_FUNCTION: u32 = 1;
pub const T_VARIABLE: u32 = 2;
pub const T_PARAMETER: u32 = 3;
pub const T_TYPE: u32 = 4;
pub const T_STRING: u32 = 5;
pub const T_NUMBER: u32 = 6;
pub const T_COMMENT: u32 = 7;
pub const T_NAMESPACE: u32 = 8;
pub const T_PROPERTY: u32 = 9;

// Bits for the token modifiers of the legend.
pub const M_DEFAULT_LIBRARY: u32 = 1;
pub const M_DECLARATION: u32 = 2;

/// The token types, in the order of the `T_*` indices; index 0 is `keyword`.
pub open spec fn legend_types() -> Seq<Seq<char>> {
    seq![
        "keyword"@,
        "function"@,
        "variable"@,
        "parameter"@,
        "type"@,
        "string"@,
        "number"@,
        "comment"@,
        "namespace"@,
        "property"@,
    ]
}

/// The token modifiers, in the order of the `M_*` bits.
pub open spec fn legend_modifiers() -> Seq<Seq<char>> {
    seq!["defaultLibrary"@, "declaration"@]
}

/// The legend advertised by the server; index order is load-bearing (see the
/// `T_*` constants above).
pub fn semantic_token_legend() -> (r: SemanticTokensLegend)
    ensures
        r.token_types@.map_values(|t: &'static str| t@) == legend_types(),
        r.token_modifiers@.map_values(|t: &'static str| t@) == legend_modifiers(),
{
    let token_types: Vec<&'static str> = vec![
        "keyword",
        "function",
        "variable",
        "parameter",
        "type",
        "string",
        "number",
        "comment",
        "namespace",
        "property",
    ];
    let token_modifiers: Vec<&'static str> = vec!["defaultLibrary", "declaration"];
    proof {
        assert(token_types@.map_values(|t: &'static str| t@) =~= legend_types());
        assert(token_modifiers@.map_values(|t: &'static str| t@) =~= legend_modifiers());
    }
    SemanticTokensLegend { token_types, token_modifiers }
}

// ---------------------------------------------------------------------------
// Which nodes are tokens
// ---------------------------------------------------------------------------

/// The kind of the first definition, from `k` on, of `name`.
pub open spec fn user_kind(defs: Seq<DefFacts>, name: Seq<char>, k: int) -> Option<SymbolKind>
    decreases defs.len() - k,
{
    if k >= defs.len() {
        None
    } else if defs[k].name == name {
        Some(defs[k].kind)
    } else {
        user_kind(defs, name, k + 1)
    }
}

/// Node `i` hangs under `field` from a member access.
pub open spec fn is_access_side(m: Model, i: int, field: Seq<char>) -> bool {
    match parent_of(m.nodes, i) {
        Some(p) => m.nodes[p].kind == "attribute"@ && field_child(m.nodes, p, field) == Some(i),
        None => false,
    }
}

/// The type and modifiers of a user symbol.
pub open spec fn user_class(kind: SymbolKind) -> (u32, u32) {
    match kind {
        SymbolKind::Function => (T_FUNCTION, M_DECLARATION),
        SymbolKind::Parameter => (T_PARAMETER, 0),
        SymbolKind::Type | SymbolKind::Enum => (T_TYPE, 0),
        SymbolKind::Variable => (T_VARIABLE, 0),
    }
}

/// The type and modifiers of an identifier: a member name, a builtin, a user
/// symbol, a namespace, or nothing.
pub open spec fn identifier_class(db: Builtins, m: Model, i: int) -> Option<(u32, u32)> {
    let name = m.node_text(i);
    if is_access_side(m, i, "attribute"@) {
        Some((T_PROPERTY, 0))
    } else if db.function_at(name) is Some {
        Some((T_FUNCTION, M_DEFAULT_LIBRARY))
    } else if db.variable_at(name) is Some || db.constant_at(name) is Some {
        Some((T_VARIABLE, M_DEFAULT_LIBRARY))
    } else {
        match user_kind(all_defs(m), name, 0) {
            Some(kind) => Some(user_class(kind)),
            None => if is_access_side(m, i, "object"@) {
                Some((T_NAMESPACE, 0))
            } else {
                None
            },
        }
    }
}

/// The type and modifiers of node `i`, where it is a token.
pub open spec fn node_class(db: Builtins, m: Model, i: int) -> Option<(u32, u32)> {
    let kind = m.nodes[i].kind;
    if kind == "comment"@ {
        Some((T_COMMENT, 0))
    } else if kind == "string"@ {
        Some((T_STRING, 0))
    } else if kind == "integer"@ || kind == "float"@ {
        Some((T_NUMBER, 0))
    } else if kind == "identifier"@ {
        identifier_class(db, m, i)
    } else {
        None
    }
}

/// A token: its place, its length in UTF-16 units, its type and modifiers.
#[derive(Clone, Copy)]
pub struct Token {
    pub line: u32,
    pub character: u32,
    pub length: u32,
    pub token_type: u32,
    pub modifiers: u32,
}

pub open spec fn token_of(m: Model, i: int, class: (u32, u32)) -> Token {
    Token {
        line: place(m.text, m.nodes[i].start_byte).line,
        character: place(m.text, m.nodes[i].start_byte).character,
        length: unit_len(m.node_text(i)) as u32,
        token_type: class.0,
        modifiers: class.1,
    }
}

/// The nodes from `j` on that are tokens. Nothing below a token is one.
pub open spec fn token_nodes(db: Builtins, m: Model, j: int) -> Seq<int>
    decreases m.nodes.len() - j,
    when 0 <= j
    via token_nodes_decreases
{
    if j >= m.nodes.len() {
        Seq::empty()
    } else if node_class(db, m, j) is Some {
        seq![j] + token_nodes(db, m, end_of(m.nodes, j))
    } else {
        token_nodes(db, m, j + 1)
    }
}

#[via_fn]
proof fn token_nodes_decreases(db: Builtins, m: Model, j: int) {
    if j < m.nodes.len() {
        lemma_below_end(m.nodes, m.nodes[j].depth, j + 1);
    }
}

/// The tokens of a document, in tree order.
pub open spec fn raw_tokens(db: Builtins, m: Model) -> Seq<Token> {
    token_nodes(db, m, 0).map_values(|i: int| token_of(m, i, node_class(db, m, i)->0))
}

/// Tokens come in the order of their places.
pub open spec fn place_order() -> spec_fn(Token, Token) -> bool {
    |a: Token, b: Token| a.line < b.line || (a.line == b.line && a.character <= b.character)
}

/// The tokens of a document, by place.
pub open spec fn sorted_tokens(db: Builtins, m: Model) -> Seq<Token> {
    stable_sort(raw_tokens(db, m), place_order())
}

/// Token `k` of a list, placed relative to the one before it, or to the start.
pub open spec fn delta_of(tokens: Seq<Token>, k: int) -> SemanticToken {
    let (line, character) = if k == 0 {
        (0u32, 0u32)
    } else {
        (tokens[k - 1].line, tokens[k - 1].character)
    };
    let t = tokens[k];
    SemanticToken {
        delta_line: (t.line - line) as u32,
        delta_start: if t.line == line {
            (t.character - character) as u32
        } else {
            t.character
        },
        length: t.length,
        token_type: t.token_type,
        token_modifiers_bitset: t.modifiers,
    }
}

/// The tokens of a document as they are sent.
pub open spec fn encoded_tokens(db: Builtins, m: Model) -> Seq<SemanticToken> {
    let tokens = sorted_tokens(db, m);
    Seq::new(tokens.len(), |k: int| delta_of(tokens, k))
}

/// The place of the `k`th token, as a reader of the encoding finds it.
pub open spec fn decoded_place(data: Seq<SemanticToken>, k: int) -> (int, int)
    decreases k + 1,
{
    if k < 0 {
        (0, 0)
    } else {
        let (line, character) = decoded_place(data, k - 1);
        let t = data[k];
        if t.delta_line == 0 {
            (line, character + t.delta_start)
        } else {
            (line + t.delta_line, t.delta_start as int)
        }
    }
}

// ---------------------------------------------------------------------------
// Laws
// ---------------------------------------------------------------------------

proof fn lemma_place_order()
    ensures
        is_order(place_order()),
{
}

/// Reading the encoding gives back the places of the tokens.
pub proof fn law_tokens_decode(db: Builtins, m: Model, k: int)
    requires
        0 <= k < sorted_tokens(db, m).len(),
    ensures
        decoded_place(encoded_tokens(db, m), k) == (
            sorted_tokens(db, m)[k].line as int,
            sorted_tokens(db, m)[k].character as int,
        ),
    decreases k,
{
    let tokens = sorted_tokens(db, m);
    lemma_place_order();
    law_sort_orders(raw_tokens(db, m), place_order());
    if k > 0 {
        law_tokens_decode(db, m, k - 1);
        assert(place_order()(tokens[k - 1], tokens[k]));
    }
    assert(encoded_tokens(db, m)[k] == delta_of(tokens, k));
    reveal_with_fuel(decoded_place, 2);
}

proof fn lemma_token_nodes(db: Builtins, m: Model, j: int)
    requires
        0 <= j <= m.nodes.len(),
    ensures
        forall|x: int|
            #![trigger token_nodes(db, m, j)[x]]
            0 <= x < token_nodes(db, m, j).len() ==> j <= token_nodes(db, m, j)[x] < m.nodes.len()
                && node_class(db, m, token_nodes(db, m, j)[x]) is Some,
        forall|x: int, y: int|
            #![trigger token_nodes(db, m, j)[x], token_nodes(db, m, j)[y]]
            0 <= x < y < token_nodes(db, m, j).len() ==> end_of(m.nodes, token_nodes(db, m, j)[x])
                <= token_nodes(db, m, j)[y],
    decreases m.nodes.len() - j,
{
    if j < m.nodes.len() {
        lemma_below_end(m.nodes, m.nodes[j].depth, j + 1);
        let list = token_nodes(db, m, j);
        if node_class(db, m, j) is Some {
            let next = end_of(m.nodes, j);
            lemma_token_nodes(db, m, next);
            let rest = token_nodes(db, m, next);
            assert(forall|x: int| 0 < x < list.len() ==> #[trigger] list[x] == rest[x - 1]);
        } else {
            lemma_token_nodes(db, m, j + 1);
        }
    }
}

/// Tokens do not overlap: of two token nodes, the earlier one's subtree ends
/// before the later one.
pub proof fn law_tokens_are_apart(db: Builtins, m: Model, x: int, y: int)
    requires
        0 <= x < y < token_nodes(db, m, 0).len(),
    ensures
        end_of(m.nodes, token_nodes(db, m, 0)[x]) <= token_nodes(db, m, 0)[y],
{
    lemma_token_nodes(db, m, 0);
}

/// Every token has a type and modifiers of the legend.
pub proof fn law_tokens_are_in_the_legend(db: Builtins, m: Model, k: int)
    requires
        0 <= k < encoded_tokens(db, m).len(),
    ensures
        encoded_tokens(db, m)[k].token_type < legend_types().len(),
        encoded_tokens(db, m)[k].token_modifiers_bitset <= M_DEFAULT_LIBRARY + M_DECLARATION,
{
    broadcast use vstd::seq_lib::group_to_multiset_ensures;

    let raw = raw_tokens(db, m);
    let tokens = sorted_tokens(db, m);
    lemma_place_order();
    law_sort_orders(raw, place_order());
    assert(tokens.to_multiset().contains(tokens[k]));
    assert(raw.contains(tokens[k]));
    let x = choose|x: int| 0 <= x < raw.len() && raw[x] == tokens[k];
    let i = token_nodes(db, m, 0)[x];
    lemma_token_nodes(db, m, 0);
    assert(raw[x] == token_of(m, i, node_class(db, m, i)->0));
    assert(encoded_tokens(db, m)[k] == delta_of(tokens, k));
}

/// Comments, strings and numbers are tokens of the types with these names, without
/// modifiers; of the other nodes only identifiers may be tokens.
pub proof fn law_literals_are_tokens(db: Builtins, m: Model, i: int)
    ensures
        ({
            let kind = m.nodes[i].kind;
            let class = node_class(db, m, i);
            &&& kind == "comment"@ ==> (class matches Some((t, 0u32)) && legend_types()[t as int]
                == "comment"@)
            &&& kind == "string"@ ==> (class matches Some((t, 0u32)) && legend_types()[t as int]
                == "string"@)
            &&& kind == "integer"@ || kind == "float"@ ==> (class matches Some((t, 0u32))
                && legend_types()[t as int] == "number"@)
            &&& kind != "comment"@ && kind != "string"@ && kind != "integer"@ && kind != "float"@
                && kind != "identifier"@ ==> class is None
        }),
{
    reveal_strlit("comment");
    reveal_strlit("string");
    reveal_strlit("integer");
    reveal_strlit("float");
    assert("comment"@.len() == 7 && "string"@.len() == 6 && "integer"@.len() == 7
        && "float"@.len() == 5);
    assert("comment"@[0] == 'c' && "integer"@[0] == 'i');
}

/// Node `i` hangs from a member access under `field`.
pub open spec fn is_side_of_access(m: Model, i: int, field: Seq<char>) -> bool {
    parent_of(m.nodes, i) matches Some(p) && m.nodes[p].kind == "attribute"@ && field_child(
        m.nodes,
        p,
        field,
    ) == Some(i)
}

proof fn lemma_user_kind(defs: Seq<DefFacts>, name: Seq<char>, k: int, d: int)
    requires
        0 <= k <= d <= defs.len(),
        forall|j: int| k <= j < d ==> (#[trigger] defs[j]).name != name,
        d < defs.len() ==> defs[d].name == name,
    ensures
        user_kind(defs, name, k) == if d < defs.len() {
            Some(defs[d].kind)
        } else {
            None
        },
    decreases d - k,
{
    if k < d {
        assert(defs[k].name != name);
        lemma_user_kind(defs, name, k + 1, d);
    }
}

/// What an identifier is as a token: a property on the member side of an access; else a
/// builtin of the default library, a function or a variable; else what its first
/// definition `d` in the document makes it; else a namespace on the object side of an
/// access; else nothing.
pub proof fn law_identifiers_are_tokens(db: Builtins, m: Model, i: int, d: int)
    requires
        m.nodes[i].kind == "identifier"@,
        0 <= d <= all_defs(m).len(),
        forall|j: int| 0 <= j < d ==> (#[trigger] all_defs(m)[j]).name != m.node_text(i),
        d < all_defs(m).len() ==> all_defs(m)[d].name == m.node_text(i),
    ensures
        ({
            let name = m.node_text(i);
            let class = node_class(db, m, i);
            let kind = all_defs(m)[d].kind;
            if is_side_of_access(m, i, "attribute"@) {
                class matches Some((t, 0u32)) && legend_types()[t as int] == "property"@
            } else if db.function_at(name) is Some {
                class matches Some((t, 1u32)) && legend_types()[t as int] == "function"@
            } else if db.variable_at(name) is Some || db.constant_at(name) is Some {
                class matches Some((t, 1u32)) && legend_types()[t as int] == "variable"@
            } else if d < all_defs(m).len() {
                match kind {
                    SymbolKind::Function => class matches Some((t, 2u32))
                        && legend_types()[t as int] == "function"@,
                    SymbolKind::Variable => class matches Some((t, 0u32))
                        && legend_types()[t as int] == "variable"@,
                    SymbolKind::Parameter => class matches Some((t, 0u32))
                        && legend_types()[t as int] == "parameter"@,
                    SymbolKind::Type => class matches Some((t, 0u32)) && legend_types()[t as int]
                        == "type"@,
                    SymbolKind::Enum => class matches Some((t, 0u32)) && legend_types()[t as int]
                        == "type"@,
                }
            } else if is_side_of_access(m, i, "object"@) {
                class matches Some((t, 0u32)) && legend_types()[t as int] == "namespace"@
            } else {
                class is None
            }
        }),
        legend_modifiers() == seq!["defaultLibrary"@, "declaration"@],
{
    reveal_strlit("comment");
    reveal_strlit("string");
    reveal_strlit("integer");
    reveal_strlit("float");
    reveal_strlit("identifier");
    assert("identifier"@.len() == 10);
    lemma_user_kind(all_defs(m), m.node_text(i), 0, d);
}

proof fn lemma_token_found(db: Builtins, m: Model, j: int, i: int)
    requires
        0 <= j <= i < m.nodes.len(),
        node_class(db, m, i) is Some,
        forall|p: int|
            j <= p < i && #[trigger] node_class(db, m, p) is Some ==> end_of(m.nodes, p) <= i,
    ensures
        token_nodes(db, m, j).contains(i),
    decreases m.nodes.len() - j,
{
    lemma_below_end(m.nodes, m.nodes[j].depth, j + 1);
    let list = token_nodes(db, m, j);
    if node_class(db, m, j) is Some {
        if j == i {
            assert(list[0] == i);
        } else {
            let next = end_of(m.nodes, j);
            lemma_token_found(db, m, next, i);
            let rest = token_nodes(db, m, next);
            let k = choose|k: int| 0 <= k < rest.len() && rest[k] == i;
            assert(list[k + 1] == i);
        }
    } else {
        lemma_token_found(db, m, j + 1, i);
    }
}

/// The token at node `i`: where the node starts, as long as its text in UTF-16 units, and
/// of that type with those modifiers.
pub open spec fn token_at(m: Model, i: int, class: (u32, u32)) -> Token {
    Token {
        line: place(m.text, m.nodes[i].start_byte).line,
        character: place(m.text, m.nodes[i].start_byte).character,
        length: unit_len(m.node_text(i)) as u32,
        token_type: class.0,
        modifiers: class.1,
    }
}

/// Every node that is a token and lies below no other token is sent.
pub proof fn law_tokens_are_complete(db: Builtins, m: Model, i: int, class: (u32, u32))
    requires
        0 <= i < m.nodes.len(),
        node_class(db, m, i) == Some(class),
        forall|p: int| #[trigger] node_class(db, m, p) is Some ==> !lies_below(m.nodes, p, i),
    ensures
        sorted_tokens(db, m).contains(token_at(m, i, class)),
        encoded_tokens(db, m).len() == sorted_tokens(db, m).len(),
{
    broadcast use vstd::seq_lib::group_to_multiset_ensures;

    assert forall|p: int|
        0 <= p < i && #[trigger] node_class(db, m, p) is Some implies end_of(m.nodes, p) <= i by {
        assert(!lies_below(m.nodes, p, i));
    }
    lemma_token_found(db, m, 0, i);
    let raw = raw_tokens(db, m);
    let nodes = token_nodes(db, m, 0);
    let k = choose|k: int| 0 <= k < nodes.len() && nodes[k] == i;
    assert(raw[k] == token_at(m, i, class));
    assert(raw.contains(token_at(m, i, class)));
    lemma_place_order();
    law_sort_orders(raw, place_order());
    assert(sorted_tokens(db, m).to_multiset().contains(token_at(m, i, class)));
}

/// What is sent is a node that is a token, as long as its text, of its own type and
/// modifiers; nothing else is sent.
pub proof fn law_tokens_are_nodes(db: Builtins, m: Model, k: int)
    requires
        0 <= k < encoded_tokens(db, m).len(),
    ensures
        exists|i: int|
            {
                &&& 0 <= i < m.nodes.len()
                &&& #[trigger] node_class(db, m, i) matches Some(class)
                &&& sorted_tokens(db, m)[k] == token_at(m, i, class)
                &&& encoded_tokens(db, m)[k].length == unit_len(m.node_text(i)) as u32
                &&& encoded_tokens(db, m)[k].token_type == class.0
                &&& encoded_tokens(db, m)[k].token_modifiers_bitset == class.1
            },
{
    broadcast use vstd::seq_lib::group_to_multiset_ensures;

    let raw = raw_tokens(db, m);
    let tokens = sorted_tokens(db, m);
    lemma_place_order();
    law_sort_orders(raw, place_order());
    assert(tokens.to_multiset().contains(tokens[k]));
    assert(raw.contains(tokens[k]));
    let x = choose|x: int| 0 <= x < raw.len() && raw[x] == tokens[k];
    let i = token_nodes(db, m, 0)[x];
    lemma_token_nodes(db, m, 0);
    let class = node_class(db, m, i)->0;
    assert(raw[x] == token_at(m, i, class));
    assert(encoded_tokens(db, m)[k] == delta_of(tokens, k));
}

// ---------------------------------------------------------------------------
// Collecting the tokens
// ---------------------------------------------------------------------------

/// Full-document semantic tokens (delta-encoded).
pub fn semantic_tokens(db: &Builtins, doc: &Document) -> (r: Vec<SemanticToken>)
    requires
        doc.wf(),
    ensures
        r@ == encoded_tokens(*db, doc@),
{
    let tokens = sort_tokens(collect_tokens(db, doc));
    let mut data: Vec<SemanticToken> = Vec::new();
    let mut line: u32 = 0;
    let mut character: u32 = 0;
    let mut k: usize = 0;
    proof {
        lemma_place_order();
        law_sort_orders(raw_tokens(*db, doc@), place_order());
    }
    while k < tokens.len()
        invariant
            k <= tokens@.len(),
            tokens@ == sorted_tokens(*db, doc@),
            in_order(tokens@, place_order()),
            data@.len() == k,
            forall|i: int| 0 <= i < k ==> #[trigger] data@[i] == delta_of(tokens@, i),
            k == 0 ==> line == 0 && character == 0,
            k > 0 ==> line == tokens@[k - 1].line && character == tokens@[k - 1].character,
        decreases tokens@.len() - k,
    {
        let t = tokens[k];
        proof {
            if k > 0 {
                assert(place_order()(tokens@[k - 1], tokens@[k as int]));
            }
        }
        let delta_line: u32 = t.line - line;
        let delta_start: u32 = if delta_line == 0 {
            t.character - character
        } else {
            t.character
        };
        data.push(
            SemanticToken {
                delta_line,
                delta_start,
                length: t.length,
                token_type: t.token_type,
                token_modifiers_bitset: t.modifiers,
            },
        );
        line = t.line;
        character = t.character;
        k = k + 1;
    }
    proof {
        assert(data@ =~= encoded_tokens(*db, doc@));
    }
    data
}

fn collect_tokens(db: &Builtins, doc: &Document) -> (r: Vec<Token>)
    requires
        doc.wf(),
    ensures
        r@ == raw_tokens(*db, doc@),
{
    let ghost m = doc@;
    let ghost f = |i: int| token_of(m, i, node_class(*db, m, i)->0);
    let ghost mut seen: Seq<int> = Seq::empty();
    let defs = definitions(doc);
    let mut out: Vec<Token> = Vec::new();
    let mut j: usize = 0;
    proof {
        assert(seen + token_nodes(*db, m, 0) =~= token_nodes(*db, m, 0));
        assert(seen.map_values(f) =~= Seq::empty());
    }
    while j < doc.tree().len()
        invariant
            doc.wf(),
            m == doc@,
            f == (|i: int| token_of(m, i, node_class(*db, m, i)->0)),
            views(defs@) == all_defs(m),
            j <= m.nodes.len(),
            token_nodes(*db, m, 0) == seen + token_nodes(*db, m, j as int),
            out@ == seen.map_values(f),
        decreases m.nodes.len() - j,
    {
        match classify(db, doc, &defs, j) {
            Some(class) => {
                let start: usize = doc.tree()[j].start_byte;
                let position = byte_position(doc, start);
                let length: u32 = text_units(doc, j);
                let next: usize = subtree_end(doc.tree(), j);
                let token = Token {
                    line: position.line,
                    character: position.character,
                    length,
                    token_type: class.0,
                    modifiers: class.1,
                };
                proof {
                    assert(doc@.nodes[j as int].start_byte == start);
                    let before = seen;
                    seen = before.push(j as int);
                    assert(before + token_nodes(*db, m, j as int) =~= seen + token_nodes(
                        *db,
                        m,
                        next as int,
                    ));
                    assert(seen.map_values(f) =~= before.map_values(f).push(token));
                }
                out.push(token);
                j = next;
            },
            None => {
                j = j + 1;
            },
        }
    }
    proof {
        assert(seen + token_nodes(*db, m, j as int) =~= seen);
    }
    out
}

/// The UTF-16 units of the text of node `i`.
fn text_units(doc: &Document, i: usize) -> (r: u32)
    requires
        doc.wf(),
        i < doc@.nodes.len(),
    ensures
        r == unit_len(doc@.node_text(i as int)),
{
    let ghost t = doc@.node_text(i as int);
    let text = doc.node_text(i);
    proof {
        lemma_node_text_len(doc@, i as int);
        lemma_unit_len_bound(t);
        assert(t.take(0) =~= Seq::<char>::empty());
    }
    let mut units: u32 = 0;
    let ghost mut k: int = 0;
    for c in it: text.chars()
        invariant
            it.seq() == t,
            k == it.index(),
            unit_len(t) <= u32::MAX,
            units == unit_len(t.take(k)),
    {
        proof {
            assert(t.take(k + 1).drop_last() =~= t.take(k));
            lemma_byte_len_take(t, k + 1, t.len() as int);
            assert(t.take(t.len() as int) =~= t);
        }
        units = units + utf16_len(c);
        proof {
            k = k + 1;
        }
    }
    proof {
        assert(t.take(t.len() as int) =~= t);
    }
    units
}

/// The text of a node is no longer than the document.
proof fn lemma_node_text_len(m: Model, i: int)
    requires
        m.wf(),
        0 <= i < m.nodes.len(),
    ensures
        byte_len(m.node_text(i)) <= byte_len(m.text) <= u32::MAX,
{
    reveal(crate::syntax::covers);
    let node = m.nodes[i];
    let t = m.text;
    assert(crate::syntax::covers(t, node));
    let a = choose|k: int| 0 <= k <= t.len() && node.start_byte == #[trigger] byte_len(t.take(k));
    let b = choose|k: int| 0 <= k <= t.len() && node.end_byte == #[trigger] byte_len(t.take(k));
    if b < a {
        lemma_byte_len_take(t, b, a);
    }
    lemma_slice_take(t, a, b);
    lemma_byte_len_take(t, a, b);
    lemma_byte_len_take(t, b, t.len() as int);
    assert(t.take(t.len() as int) =~= t);
}

/// The type and modifiers of node `i`, where it is a token.
fn classify(db: &Builtins, doc: &Document, defs: &Vec<SymbolDef>, i: usize) -> (r: Option<
    (u32, u32),
>)
    requires
        doc.wf(),
        i < doc@.nodes.len(),
        views(defs@) == all_defs(doc@),
    ensures
        r == node_class(*db, doc@, i as int),
{
    let node = &doc.tree()[i];
    proof {
        assert(node@ == doc@.nodes[i as int]);
    }
    if node.is("comment") {
        Some((T_COMMENT, 0))
    } else if node.is("string") {
        Some((T_STRING, 0))
    } else if node.is("integer") || node.is("float") {
        Some((T_NUMBER, 0))
    } else if node.is("identifier") {
        classify_identifier(db, doc, defs, i)
    } else {
        None
    }
}

fn is_side(doc: &Document, i: usize, field: &str) -> (r: bool)
    requires
        doc.wf(),
        i < doc@.nodes.len(),
    ensures
        r == is_access_side(doc@, i as int, field@),
{
    match parent(doc.tree(), i) {
        Some(p) => {
            let node = &doc.tree()[p];
            proof {
                assert(node@ == doc@.nodes[p as int]);
            }
            if node.is("attribute") {
                match child_by_field(doc.tree(), p, field) {
                    Some(c) => c == i,
                    None => false,
                }
            } else {
                false
            }
        },
        None => false,
    }
}

fn find_user_kind(defs: &Vec<SymbolDef>, name: &str) -> (r: Option<SymbolKind>)
    ensures
        r == user_kind(views(defs@), name@, 0),
{
    let ghost all = views(defs@);
    let mut k: usize = 0;
    while k < defs.len()
        invariant
            k <= defs@.len(),
            all == views(defs@),
            user_kind(all, name@, 0) == user_kind(all, name@, k as int),
        decreases defs@.len() - k,
    {
        proof {
            assert(all[k as int] == defs@[k as int]@);
        }
        if str_eq(defs[k].name.as_str(), name) {
            return Some(defs[k].kind);
        }
        k = k + 1;
    }
    None
}

fn classify_identifier(db: &Builtins, doc: &Document, defs: &Vec<SymbolDef>, i: usize) -> (r:
    Option<(u32, u32)>)
    requires
        doc.wf(),
        i < doc@.nodes.len(),
        views(defs@) == all_defs(doc@),
    ensures
        r == identifier_class(*db, doc@, i as int),
{
    let name = doc.node_text(i);
    if is_side(doc, i, "attribute") {
        return Some((T_PROPERTY, 0));
    }
    if function(db, name).is_some() {
        return Some((T_FUNCTION, M_DEFAULT_LIBRARY));
    }
    if variable(db, name).is_some() || constant(db, name).is_some() {
        return Some((T_VARIABLE, M_DEFAULT_LIBRARY));
    }
    if let Some(kind) = find_user_kind(defs, name) {
        return Some(
            match kind {
                SymbolKind::Function => (T_FUNCTION, M_DECLARATION),
                SymbolKind::Parameter => (T_PARAMETER, 0),
                SymbolKind::Type | SymbolKind::Enum => (T_TYPE, 0),
                SymbolKind::Variable => (T_VARIABLE, 0),
            },
        );
    }
    if is_side(doc, i, "object") {
        return Some((T_NAMESPACE, 0));
    }
    None
}

/// The tokens by place; those at the same place keep their order.
fn sort_tokens(items: Vec<Token>) -> (r: Vec<Token>)
    ensures
        r@ == stable_sort(items@, place_order()),
{
    let mut out: Vec<Token> = Vec::new();
    let mut k: usize = 0;
    proof {
        assert(items@.take(0) =~= Seq::empty());
    }
    while k < items.len()
        invariant
            k <= items@.len(),
            out@ == stable_sort(items@.take(k as int), place_order()),
        decreases items@.len() - k,
    {
        proof {
            assert(items@.take(k + 1).drop_last() =~= items@.take(k as int));
        }
        insert_token(&mut out, items[k]);
        k = k + 1;
    }
    proof {
        assert(items@.take(items@.len() as int) =~= items@);
    }
    out
}

fn insert_token(out: &mut Vec<Token>, item: Token)
    ensures
        final(out)@ == insert_after(old(out)@, item, place_order()),
{
    let mut j: usize = out.len();
    while j > 0 && (out[j - 1].line > item.line || (out[j - 1].line == item.line && out[j
        - 1].character > item.character))
        invariant
            j <= out@.len(),
            out@ == old(out)@,
            forall|i: int| j <= i < out@.len() ==> !#[trigger] place_order()(out@[i], item),
        decreases j,
    {
        j = j - 1;
    }
    proof {
        lemma_insert_at(out@, item, place_order(), j as int);
    }
    out.insert(j, item);
}

}
