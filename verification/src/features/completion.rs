//! Completion: members after a dot, otherwise everything at the top level.

use vstd::prelude::*;
use vstd::string::*;

use crate::builtins::{BuiltinConstant, BuiltinFunction, BuiltinVariable, Builtins};
use crate::document::Document;
use crate::features::words::{
    is_boundary, is_run, law_namespace_is_before_the_last_dot, law_run_before_an_offset,
    namespace_in, run_namespace, run_of, trailing_run,
};
use crate::imports::{
    import_table, imports_of, resolution_of, resolve_imports, source_wf, EntryFacts, ExportFacts,
    ExportKind, ExportedParam, ExportedSymbol, ImportEntry, ImportResolution, LibrarySource,
    ParamFacts, ResolutionFacts,
};
use crate::lsp::{CompletionItem, CompletionItemKind, ItemFacts, Position};
use crate::strings::{
    byte_len, concat, concat3, join, law_strip_prefix, lemma_views_empty, lemma_views_push,
    starts_with, str_eq, str_join, str_starts_with, str_strip_prefix, stripped, views,
};
use crate::syntax::Model;
use crate::text::offset_of;

verus! {

// ---------------------------------------------------------------------------
// What is offered
// ---------------------------------------------------------------------------

/// A completion item; an empty detail is left out.
pub open spec fn item_of(label: Seq<char>, kind: CompletionItemKind, detail: Seq<char>) -> ItemFacts {
    ItemFacts {
        label,
        kind,
        detail: if detail.len() == 0 {
            None
        } else {
            Some(detail)
        },
    }
}

/// The detail of a function: its syntax, or else what it returns.
pub open spec fn function_detail(f: BuiltinFunction) -> Seq<char> {
    if f.syntax@.len() == 0 {
        f.returns@
    } else {
        f.syntax@
    }
}

/// The items of all builtins under their full names: functions, variables,
/// constants.
pub open spec fn builtin_items(db: Builtins) -> Seq<ItemFacts> {
    db.functions@.map_values(
        |f: BuiltinFunction|
            item_of(f.name@, CompletionItemKind::Function, function_detail(f)),
    ) + db.variables@.map_values(
        |v: BuiltinVariable| item_of(v.name@, CompletionItemKind::Variable, v.ty@),
    ) + db.constants@.map_values(
        |c: BuiltinConstant| item_of(c.name@, CompletionItemKind::Constant, c.ty@),
    )
}

/// The name of a direct member of the namespace whose dotted prefix is `prefix`.
pub open spec fn direct_member(prefix: Seq<char>, name: Seq<char>) -> Option<Seq<char>> {
    match stripped(name, prefix) {
        Some(member) if !member.contains('.') => Some(member),
        _ => None,
    }
}

/// Of the first `k` items those that are direct members, under their bare names.
pub open spec fn members_upto(items: Seq<ItemFacts>, prefix: Seq<char>, k: int) -> Seq<ItemFacts>
    decreases k,
{
    if k <= 0 {
        Seq::empty()
    } else {
        match direct_member(prefix, items[k - 1].label) {
            Some(member) => members_upto(items, prefix, k - 1).push(
                ItemFacts { label: member, ..items[k - 1] },
            ),
            None => members_upto(items, prefix, k - 1),
        }
    }
}

/// The builtin members of a namespace.
pub open spec fn namespace_items(db: Builtins, namespace: Seq<char>) -> Seq<ItemFacts> {
    let items = builtin_items(db);
    members_upto(items, namespace + "."@, items.len() as int)
}

/// How one parameter is written in a signature.
pub open spec fn param_text(param: ParamFacts) -> Seq<char> {
    let typed = match param.declared_type {
        Some(t) => t + " "@ + param.name,
        None => param.name,
    };
    if param.has_default {
        typed + "=…"@
    } else {
        typed
    }
}

/// A one-line signature of a function or method; nothing for types and enums.
pub open spec fn export_detail(symbol: ExportFacts) -> Seq<char> {
    match symbol.kind {
        ExportKind::Function | ExportKind::Method => {
            symbol.name + "("@ + join(
                symbol.params.map_values(|p: ParamFacts| param_text(p)),
                ", "@,
            ) + ")"@
        },
        ExportKind::Type | ExportKind::Enum => Seq::empty(),
    }
}

pub open spec fn export_item(symbol: ExportFacts) -> ItemFacts {
    item_of(
        symbol.name,
        match symbol.kind {
            ExportKind::Function | ExportKind::Method => CompletionItemKind::Function,
            ExportKind::Type => CompletionItemKind::Struct,
            ExportKind::Enum => CompletionItemKind::Enum,
        },
        export_detail(symbol),
    )
}

/// The members that a resolved library offers.
pub open spec fn resolution_items(resolution: ResolutionFacts) -> Seq<ItemFacts> {
    match resolution {
        ResolutionFacts::Resolved { path, symbols } => symbols.map_values(
            |s: ExportFacts| export_item(s),
        ),
        _ => Seq::empty(),
    }
}

/// The first pair, from `k` on, whose name is `namespace`.
pub open spec fn pair_named(
    resolved: Seq<(Seq<char>, ResolutionFacts)>,
    namespace: Seq<char>,
    k: int,
) -> Option<int>
    decreases resolved.len() - k,
{
    if k >= resolved.len() {
        None
    } else if resolved[k].0 == namespace {
        Some(k)
    } else {
        pair_named(resolved, namespace, k + 1)
    }
}

/// The members that the library behind `namespace` offers.
pub open spec fn imported_items(
    resolved: Seq<(Seq<char>, ResolutionFacts)>,
    namespace: Seq<char>,
) -> Seq<ItemFacts> {
    match pair_named(resolved, namespace, 0) {
        Some(i) => resolution_items(resolved[i].1),
        None => Seq::empty(),
    }
}

/// Some builtin lives in the namespace `name`.
pub open spec fn is_namespace_head(db: Builtins, name: Seq<char>) -> bool {
    exists|i: int|
        0 <= i < builtin_items(db).len() && starts_with(
            (#[trigger] builtin_items(db)[i]).label,
            name + "."@,
        )
}

pub open spec fn import_item(entry: EntryFacts) -> ItemFacts {
    ItemFacts {
        label: entry.namespace(),
        kind: CompletionItemKind::Module,
        detail: Some("import "@ + entry.user + "/"@ + entry.lib + "/"@ + entry.version),
    }
}

/// One module for each of the first `k` imports whose name is no builtin
/// namespace.
pub open spec fn import_items_upto(
    db: Builtins,
    entries: Seq<EntryFacts>,
    k: int,
) -> Seq<ItemFacts>
    decreases k,
{
    if k <= 0 {
        Seq::empty()
    } else if is_namespace_head(db, entries[k - 1].namespace()) {
        import_items_upto(db, entries, k - 1)
    } else {
        import_items_upto(db, entries, k - 1).push(import_item(entries[k - 1]))
    }
}

pub open spec fn keyword_items(db: Builtins) -> Seq<ItemFacts> {
    db.keywords.all@.map_values(
        |k: String| ItemFacts { label: k@, kind: CompletionItemKind::Keyword, detail: None },
    )
}

/// Everything at the top level: builtins, keywords, imports.
pub open spec fn top_items(db: Builtins, m: Model) -> Seq<ItemFacts> {
    builtin_items(db) + keyword_items(db) + import_items_upto(
        db,
        imports_of(m),
        imports_of(m).len() as int,
    )
}

/// What is offered at a position, given the resolved imports.
pub open spec fn completions_of(
    db: Builtins,
    m: Model,
    pos: Position,
    resolved: Seq<(Seq<char>, ResolutionFacts)>,
) -> Seq<ItemFacts> {
    match namespace_in(
        run_of(m.text, offset_of(m.text, pos.line as int, pos.character as int)),
    ) {
        Some(namespace) => namespace_items(db, namespace) + imported_items(resolved, namespace),
        None => top_items(db, m),
    }
}

/// Pairs of a namespace and a resolution, in mathematical values.
pub open spec fn pair_views(s: Seq<(String, ImportResolution)>) -> Seq<
    (Seq<char>, ResolutionFacts),
> {
    s.map_values(|p: (String, ImportResolution)| (p.0@, p.1@))
}

/// The resolved imports of a document, by namespace, given what was found of the
/// libraries.
pub open spec fn resolved_pairs(m: Model, found: Seq<LibrarySource>) -> Seq<
    (Seq<char>, ResolutionFacts),
> {
    Seq::new(
        imports_of(m).len(),
        |i: int|
            (imports_of(m)[i].namespace(), resolution_of(imports_of(m)[i].source, found[i])),
    )
}

// ---------------------------------------------------------------------------
// Laws
// ---------------------------------------------------------------------------

proof fn lemma_members_bare(items: Seq<ItemFacts>, prefix: Seq<char>, k: int)
    requires
        0 <= k <= items.len(),
    ensures
        forall|x: int|
            0 <= x < members_upto(items, prefix, k).len() ==> !(#[trigger] members_upto(
                items,
                prefix,
                k,
            )[x]).label.contains('.'),
    decreases k,
{
    if k > 0 {
        lemma_members_bare(items, prefix, k - 1);
    }
}

/// The builtin members of a namespace are offered under bare names.
pub proof fn law_members_are_bare(db: Builtins, namespace: Seq<char>, x: int)
    requires
        0 <= x < namespace_items(db, namespace).len(),
    ensures
        !namespace_items(db, namespace)[x].label.contains('.'),
{
    let items = builtin_items(db);
    lemma_members_bare(items, namespace + "."@, items.len() as int);
}

/// The builtin members of a namespace come first, whatever was imported.
pub proof fn law_imports_only_add(
    db: Builtins,
    m: Model,
    pos: Position,
    resolved: Seq<(Seq<char>, ResolutionFacts)>,
)
    ensures
        ({
            let plain = completions_of(db, m, pos, Seq::empty());
            let with = completions_of(db, m, pos, resolved);
            plain.len() <= with.len() && with.take(plain.len() as int) == plain
        }),
{
    let plain = completions_of(db, m, pos, Seq::empty());
    let with = completions_of(db, m, pos, resolved);
    assert(with.take(plain.len() as int) =~= plain);
}

/// No import is offered under the name of a builtin namespace.
pub proof fn law_imports_do_not_shadow(db: Builtins, entries: Seq<EntryFacts>, k: int, x: int)
    requires
        0 <= k <= entries.len(),
        0 <= x < import_items_upto(db, entries, k).len(),
    ensures
        !is_namespace_head(db, import_items_upto(db, entries, k)[x].label),
    decreases k,
{
    if x < import_items_upto(db, entries, k - 1).len() {
        law_imports_do_not_shadow(db, entries, k - 1, x);
    }
}

/// The detail of an item: its text, or none where that is empty.
pub open spec fn shown(detail: Seq<char>) -> Option<Seq<char>> {
    if detail.len() == 0 {
        None
    } else {
        Some(detail)
    }
}

/// Among the items is one with this label, kind and detail.
pub open spec fn offers(
    items: Seq<ItemFacts>,
    label: Seq<char>,
    kind: CompletionItemKind,
    detail: Seq<char>,
) -> bool {
    exists|x: int|
        0 <= x < items.len() && (#[trigger] items[x]).label == label && items[x].kind == kind
            && items[x].detail == shown(detail)
}

proof fn lemma_member_found(
    items: Seq<ItemFacts>,
    prefix: Seq<char>,
    k: int,
    x: int,
    member: Seq<char>,
)
    requires
        0 <= x < k <= items.len(),
        items[x].label == prefix + member,
        !member.contains('.'),
    ensures
        members_upto(items, prefix, k).contains(ItemFacts { label: member, ..items[x] }),
    decreases k,
{
    law_strip_prefix(prefix, member);
    let before = members_upto(items, prefix, k - 1);
    let now = members_upto(items, prefix, k);
    let item = ItemFacts { label: member, ..items[x] };
    if x < k - 1 {
        lemma_member_found(items, prefix, k - 1, x, member);
        let y = choose|y: int| 0 <= y < before.len() && before[y] == item;
        assert(now[y] == item);
    } else {
        assert(now[now.len() - 1] == item);
    }
}

proof fn lemma_offered(
    db: Builtins,
    namespace: Seq<char>,
    x: int,
    member: Seq<char>,
    kind: CompletionItemKind,
    detail: Seq<char>,
)
    requires
        0 <= x < builtin_items(db).len(),
        builtin_items(db)[x] == (ItemFacts {
            label: namespace + "."@ + member,
            kind,
            detail: shown(detail),
        }),
        !member.contains('.'),
    ensures
        offers(namespace_items(db, namespace), member, kind, detail),
{
    let items = builtin_items(db);
    lemma_member_found(items, namespace + "."@, items.len() as int, x, member);
    let found = namespace_items(db, namespace);
    let item = ItemFacts { label: member, ..items[x] };
    let y = choose|y: int| 0 <= y < found.len() && found[y] == item;
    assert(found[y].label == member);
}

/// Every builtin of a namespace is offered after its dot, whatever it is: a function,
/// a variable or a constant whose name is the namespace, a dot and a member without a
/// dot comes under the member's name, with its own kind and detail.
pub proof fn law_namespace_members_are_complete(
    db: Builtins,
    namespace: Seq<char>,
    member: Seq<char>,
    i: int,
)
    requires
        !member.contains('.'),
    ensures
        0 <= i < db.functions@.len() && db.functions@[i].name@ == namespace + "."@ + member
            ==> offers(
            namespace_items(db, namespace),
            member,
            CompletionItemKind::Function,
            if db.functions@[i].syntax@.len() == 0 {
                db.functions@[i].returns@
            } else {
                db.functions@[i].syntax@
            },
        ),
        0 <= i < db.variables@.len() && db.variables@[i].name@ == namespace + "."@ + member
            ==> offers(
            namespace_items(db, namespace),
            member,
            CompletionItemKind::Variable,
            db.variables@[i].ty@,
        ),
        0 <= i < db.constants@.len() && db.constants@[i].name@ == namespace + "."@ + member
            ==> offers(
            namespace_items(db, namespace),
            member,
            CompletionItemKind::Constant,
            db.constants@[i].ty@,
        ),
{
    let nf = db.functions@.len() as int;
    let nv = db.variables@.len() as int;
    if 0 <= i < nf && db.functions@[i].name@ == namespace + "."@ + member {
        lemma_offered(
            db,
            namespace,
            i,
            member,
            CompletionItemKind::Function,
            if db.functions@[i].syntax@.len() == 0 {
                db.functions@[i].returns@
            } else {
                db.functions@[i].syntax@
            },
        );
    }
    if 0 <= i < nv && db.variables@[i].name@ == namespace + "."@ + member {
        let kind = CompletionItemKind::Variable;
        lemma_offered(db, namespace, nf + i, member, kind, db.variables@[i].ty@);
    }
    if 0 <= i < db.constants@.len() && db.constants@[i].name@ == namespace + "."@ + member {
        let kind = CompletionItemKind::Constant;
        lemma_offered(db, namespace, nf + nv + i, member, kind, db.constants@[i].ty@);
    }
}

/// Some builtin has this name, kind and detail.
pub open spec fn has_builtin(
    db: Builtins,
    name: Seq<char>,
    kind: CompletionItemKind,
    detail: Option<Seq<char>>,
) -> bool {
    ||| kind == CompletionItemKind::Function && exists|i: int|
        0 <= i < db.functions@.len() && (#[trigger] db.functions@[i]).name@ == name && detail
            == shown(
            if db.functions@[i].syntax@.len() == 0 {
                db.functions@[i].returns@
            } else {
                db.functions@[i].syntax@
            },
        )
    ||| kind == CompletionItemKind::Variable && exists|i: int|
        0 <= i < db.variables@.len() && (#[trigger] db.variables@[i]).name@ == name && detail
            == shown(db.variables@[i].ty@)
    ||| kind == CompletionItemKind::Constant && exists|i: int|
        0 <= i < db.constants@.len() && (#[trigger] db.constants@[i]).name@ == name && detail
            == shown(db.constants@[i].ty@)
}

proof fn lemma_builtin_item(db: Builtins, x: int)
    requires
        0 <= x < builtin_items(db).len(),
    ensures
        ({
            let item = builtin_items(db)[x];
            has_builtin(db, item.label, item.kind, item.detail)
        }),
{
    let nf = db.functions@.len() as int;
    let nv = db.variables@.len() as int;
    let item = builtin_items(db)[x];
    if x < nf {
        assert(db.functions@[x].name@ == item.label);
    } else if x < nf + nv {
        assert(db.variables@[x - nf].name@ == item.label);
    } else {
        assert(db.constants@[x - nf - nv].name@ == item.label);
    }
}

proof fn lemma_member_source(items: Seq<ItemFacts>, prefix: Seq<char>, k: int, x: int)
    requires
        0 <= k <= items.len(),
        0 <= x < members_upto(items, prefix, k).len(),
    ensures
        exists|y: int|
            0 <= y < k && (#[trigger] items[y]).label == prefix + members_upto(
                items,
                prefix,
                k,
            )[x].label && items[y].kind == members_upto(items, prefix, k)[x].kind && items[y].detail
                == members_upto(items, prefix, k)[x].detail,
    decreases k,
{
    let before = members_upto(items, prefix, k - 1);
    let item = members_upto(items, prefix, k)[x];
    if x < before.len() {
        lemma_member_source(items, prefix, k - 1, x);
        assert(item == before[x]);
    } else {
        law_strip_prefix(prefix, items[k - 1].label);
        assert(items[k - 1].label == prefix + item.label);
    }
}

/// What is offered after the dot of a namespace is a builtin of it: the namespace, a
/// dot and the label are its name, and kind and detail are its own.
pub proof fn law_namespace_members_are_builtins(db: Builtins, namespace: Seq<char>, x: int)
    requires
        0 <= x < namespace_items(db, namespace).len(),
    ensures
        ({
            let item = namespace_items(db, namespace)[x];
            has_builtin(db, namespace + "."@ + item.label, item.kind, item.detail)
        }),
{
    let items = builtin_items(db);
    lemma_member_source(items, namespace + "."@, items.len() as int, x);
    let item = namespace_items(db, namespace)[x];
    let y = choose|y: int|
        0 <= y < items.len() && (#[trigger] items[y]).label == namespace + "."@ + item.label
            && items[y].kind == item.kind && items[y].detail == item.detail;
    lemma_builtin_item(db, y);
}

/// The label is the namespace, a dot and a member without a dot.
pub open spec fn is_member_label(namespace: Seq<char>, label: Seq<char>) -> bool {
    exists|member: Seq<char>| label == #[trigger] (namespace + "."@ + member) && !member.contains('.')
}

proof fn lemma_members_count(items: Seq<ItemFacts>, namespace: Seq<char>, k: int)
    requires
        0 <= k <= items.len(),
    ensures
        members_upto(items, namespace + "."@, k).len() == items.take(k).filter(
            |item: ItemFacts| is_member_label(namespace, item.label),
        ).len(),
    decreases k,
{
    let p = |item: ItemFacts| is_member_label(namespace, item.label);
    reveal(Seq::filter);
    if k > 0 {
        lemma_members_count(items, namespace, k - 1);
        assert(items.take(k).drop_last() =~= items.take(k - 1));
        assert(items.take(k).last() == items[k - 1]);
        let prefix = namespace + "."@;
        let label = items[k - 1].label;
        law_strip_prefix(prefix, label);
        if is_member_label(namespace, label) {
            let member = choose|member: Seq<char>|
                label == #[trigger] (namespace + "."@ + member) && !member.contains('.');
            law_strip_prefix(prefix, member);
        } else if let Some(member) = direct_member(prefix, label) {
            assert(label == namespace + "."@ + member);
        }
    }
}

/// Each builtin of a namespace is offered once after its dot: there are as many items as
/// there are builtins that are direct members.
pub proof fn law_namespace_members_come_once(db: Builtins, m: Model, namespace: Seq<char>)
    ensures
        namespace_items(db, namespace).len() == top_items(db, m).take(
            (db.functions@.len() + db.variables@.len() + db.constants@.len()) as int,
        ).filter(|item: ItemFacts| is_member_label(namespace, item.label)).len(),
{
    let items = builtin_items(db);
    lemma_members_count(items, namespace, items.len() as int);
    assert(items.take(items.len() as int) =~= items);
    assert(top_items(db, m).take(items.len() as int) =~= items);
}

/// At the top level everything comes, in order: the functions, the variables and the
/// constants under their full names, then the keywords, then the imports.
pub proof fn law_top_level_is_complete(db: Builtins, m: Model, i: int)
    ensures
        ({
            let items = top_items(db, m);
            let nf = db.functions@.len() as int;
            let nv = db.variables@.len() as int;
            let nc = db.constants@.len() as int;
            let nk = db.keywords.all@.len() as int;
            &&& nf + nv + nc + nk <= items.len() <= nf + nv + nc + nk + imports_of(m).len()
            &&& 0 <= i < nf ==> items[i].label == db.functions@[i].name@ && items[i].kind
                == CompletionItemKind::Function && items[i].detail == shown(
                if db.functions@[i].syntax@.len() == 0 {
                    db.functions@[i].returns@
                } else {
                    db.functions@[i].syntax@
                },
            )
            &&& 0 <= i < nv ==> items[nf + i].label == db.variables@[i].name@ && items[nf + i].kind
                == CompletionItemKind::Variable && items[nf + i].detail == shown(
                db.variables@[i].ty@,
            )
            &&& 0 <= i < nc ==> items[nf + nv + i].label == db.constants@[i].name@ && items[nf + nv
                + i].kind == CompletionItemKind::Constant && items[nf + nv + i].detail == shown(
                db.constants@[i].ty@,
            )
            &&& 0 <= i < nk ==> items[nf + nv + nc + i].label == db.keywords.all@[i]@ && items[nf
                + nv + nc + i].kind == CompletionItemKind::Keyword && items[nf + nv + nc + i].detail
                is None
        }),
{
    lemma_import_items_len(db, imports_of(m), imports_of(m).len() as int);
}

proof fn lemma_import_items_len(db: Builtins, entries: Seq<EntryFacts>, k: int)
    requires
        0 <= k <= entries.len(),
    ensures
        import_items_upto(db, entries, k).len() <= k,
    decreases k,
{
    if k > 0 {
        lemma_import_items_len(db, entries, k - 1);
    }
}

/// Some builtin lives in the namespace: its name begins with the namespace and a dot.
pub open spec fn is_taken(db: Builtins, namespace: Seq<char>) -> bool {
    ||| exists|i: int, rest: Seq<char>|
        0 <= i < db.functions@.len() && (#[trigger] db.functions@[i]).name@ == #[trigger] (namespace
            + "."@ + rest)
    ||| exists|i: int, rest: Seq<char>|
        0 <= i < db.variables@.len() && (#[trigger] db.variables@[i]).name@ == #[trigger] (namespace
            + "."@ + rest)
    ||| exists|i: int, rest: Seq<char>|
        0 <= i < db.constants@.len() && (#[trigger] db.constants@[i]).name@ == #[trigger] (namespace
            + "."@ + rest)
}

proof fn lemma_taken(db: Builtins, namespace: Seq<char>)
    ensures
        is_taken(db, namespace) <==> is_namespace_head(db, namespace),
{
    let items = builtin_items(db);
    let prefix = namespace + "."@;
    let nf = db.functions@.len() as int;
    let nv = db.variables@.len() as int;
    if is_namespace_head(db, namespace) {
        let x = choose|x: int|
            0 <= x < items.len() && starts_with((#[trigger] items[x]).label, prefix);
        law_strip_prefix(prefix, items[x].label);
        let rest = stripped(items[x].label, prefix)->0;
        assert(items[x].label == prefix + rest);
        if x < nf {
            assert(db.functions@[x].name@ == namespace + "."@ + rest);
        } else if x < nf + nv {
            assert(db.variables@[x - nf].name@ == namespace + "."@ + rest);
        } else {
            assert(db.constants@[x - nf - nv].name@ == namespace + "."@ + rest);
        }
    }
    assert forall|i: int, rest: Seq<char>|
        0 <= i < db.functions@.len() && (#[trigger] db.functions@[i]).name@ == #[trigger] (namespace
            + "."@ + rest) implies is_namespace_head(db, namespace) by {
        law_strip_prefix(prefix, rest);
        assert(starts_with(items[i].label, prefix));
    }
    assert forall|i: int, rest: Seq<char>|
        0 <= i < db.variables@.len() && (#[trigger] db.variables@[i]).name@ == #[trigger] (namespace
            + "."@ + rest) implies is_namespace_head(db, namespace) by {
        law_strip_prefix(prefix, rest);
        assert(starts_with(items[nf + i].label, prefix));
    }
    assert forall|i: int, rest: Seq<char>|
        0 <= i < db.constants@.len() && (#[trigger] db.constants@[i]).name@ == #[trigger] (namespace
            + "."@ + rest) implies is_namespace_head(db, namespace) by {
        law_strip_prefix(prefix, rest);
        assert(starts_with(items[nf + nv + i].label, prefix));
    }
}

proof fn lemma_import_offered(db: Builtins, entries: Seq<EntryFacts>, k: int, i: int)
    requires
        0 <= i < k <= entries.len(),
        !is_namespace_head(db, entries[i].namespace()),
    ensures
        import_items_upto(db, entries, k).contains(import_item(entries[i])),
    decreases k,
{
    let before = import_items_upto(db, entries, k - 1);
    let now = import_items_upto(db, entries, k);
    let item = import_item(entries[i]);
    if i < k - 1 {
        lemma_import_offered(db, entries, k - 1, i);
        let y = choose|y: int| 0 <= y < before.len() && before[y] == item;
        assert(now[y] == item);
    } else {
        assert(now[now.len() - 1] == item);
    }
}

/// An import that no builtin shares its name with is offered at the top level, under
/// the name that code refers to it by, with its path as the detail.
pub proof fn law_imports_are_offered(db: Builtins, m: Model, i: int)
    requires
        0 <= i < imports_of(m).len(),
        !is_taken(db, imports_of(m)[i].namespace()),
    ensures
        ({
            let entry = imports_of(m)[i];
            let name = match entry.alias {
                Some(alias) => alias,
                None => entry.lib,
            };
            offers(
                top_items(db, m),
                name,
                CompletionItemKind::Module,
                "import "@ + entry.user + "/"@ + entry.lib + "/"@ + entry.version,
            )
        }),
{
    reveal_strlit("import ");
    let entries = imports_of(m);
    let n = entries.len() as int;
    lemma_taken(db, entries[i].namespace());
    lemma_import_offered(db, entries, n, i);
    let item = import_item(entries[i]);
    let tail = import_items_upto(db, entries, n);
    let y = choose|y: int| 0 <= y < tail.len() && tail[y] == item;
    let items = top_items(db, m);
    let at = items.len() - tail.len() + y;
    assert(items[at] == item);
    assert((item.detail->0).len() > 0);
}

proof fn lemma_import_source(db: Builtins, entries: Seq<EntryFacts>, k: int, x: int)
    requires
        0 <= k <= entries.len(),
        0 <= x < import_items_upto(db, entries, k).len(),
    ensures
        exists|i: int|
            0 <= i < k && import_items_upto(db, entries, k)[x] == import_item(#[trigger] entries[i])
                && !is_namespace_head(db, entries[i].namespace()),
    decreases k,
{
    let before = import_items_upto(db, entries, k - 1);
    if x < before.len() {
        lemma_import_source(db, entries, k - 1, x);
        assert(import_items_upto(db, entries, k)[x] == before[x]);
    } else {
        assert(import_items_upto(db, entries, k)[x] == import_item(entries[k - 1]));
    }
}

/// Behind the builtins and the keywords nothing comes at the top level but imports,
/// and none of these under a name that builtins live in.
pub proof fn law_top_level_ends_in_imports(db: Builtins, m: Model, x: int)
    requires
        db.functions@.len() + db.variables@.len() + db.constants@.len() + db.keywords.all@.len()
            <= x < top_items(db, m).len(),
    ensures
        top_items(db, m)[x].kind == CompletionItemKind::Module,
        !is_taken(db, top_items(db, m)[x].label),
        exists|i: int|
            0 <= i < imports_of(m).len() && top_items(db, m)[x].label == (
            #[trigger] imports_of(m)[i]).namespace(),
{
    let entries = imports_of(m);
    let n = entries.len() as int;
    let tail = import_items_upto(db, entries, n);
    let base = top_items(db, m).len() - tail.len();
    lemma_import_source(db, entries, n, x - base);
    assert(top_items(db, m)[x] == tail[x - base]);
    let i = choose|i: int|
        0 <= i < n && tail[x - base] == import_item(#[trigger] entries[i]) && !is_namespace_head(
            db,
            entries[i].namespace(),
        );
    lemma_taken(db, entries[i].namespace());
}

/// After the dot of an import the symbols of its library are offered, all of them, in
/// order: functions and methods as functions, types as structs, enums as enums. Of two
/// imports of one name the first counts.
pub proof fn law_library_members_are_offered(
    resolved: Seq<(Seq<char>, ResolutionFacts)>,
    namespace: Seq<char>,
    i: int,
    s: int,
)
    requires
        0 <= i < resolved.len(),
        resolved[i].0 == namespace,
        forall|j: int| 0 <= j < i ==> (#[trigger] resolved[j]).0 != namespace,
        resolved[i].1 is Resolved,
        0 <= s < resolved[i].1->symbols.len(),
    ensures
        imported_items(resolved, namespace).len() == resolved[i].1->symbols.len(),
        ({
            let symbol = resolved[i].1->symbols[s];
            let item = imported_items(resolved, namespace)[s];
            &&& item.label == symbol.name
            &&& symbol.kind == ExportKind::Function || symbol.kind == ExportKind::Method
                ==> item.kind == CompletionItemKind::Function
            &&& symbol.kind == ExportKind::Type ==> item.kind == CompletionItemKind::Struct
                && item.detail is None
            &&& symbol.kind == ExportKind::Enum ==> item.kind == CompletionItemKind::Enum
                && item.detail is None
        }),
{
    lemma_pair_named(resolved, namespace, 0, i);
}

proof fn lemma_pair_named(
    resolved: Seq<(Seq<char>, ResolutionFacts)>,
    namespace: Seq<char>,
    k: int,
    i: int,
)
    requires
        0 <= k <= i < resolved.len(),
        resolved[i].0 == namespace,
        forall|j: int| 0 <= j < i ==> (#[trigger] resolved[j]).0 != namespace,
    ensures
        pair_named(resolved, namespace, k) == Some(i),
    decreases i - k,
{
    if k < i {
        lemma_pair_named(resolved, namespace, k + 1, i);
    }
}

/// The detail of a library's function is its name with its parameters in brackets,
/// each with its type before it where it has one, and marked where it has a default.
pub proof fn law_signature_shows_the_parameters(symbol: ExportFacts, texts: Seq<Seq<char>>)
    requires
        symbol.kind == ExportKind::Function || symbol.kind == ExportKind::Method,
        texts.len() == symbol.params.len(),
        forall|i: int|
            0 <= i < texts.len() ==> #[trigger] texts[i] == match (
                symbol.params[i].declared_type,
                symbol.params[i].has_default,
            ) {
                (Some(t), true) => t + " "@ + symbol.params[i].name + "=…"@,
                (Some(t), false) => t + " "@ + symbol.params[i].name,
                (None, true) => symbol.params[i].name + "=…"@,
                (None, false) => symbol.params[i].name,
            },
    ensures
        export_item(symbol).detail == Some(symbol.name + "("@ + join(texts, ", "@) + ")"@),
{
    reveal_strlit("(");
    assert(symbol.params.map_values(|p: ParamFacts| param_text(p)) =~= texts);
    assert((symbol.name + "("@ + join(texts, ", "@) + ")"@).len() > 0);
}

/// Where a namespace, a dot and the start of a member stand before the cursor, the
/// members of that namespace are offered, builtin ones first; where no dot stands in
/// the word there, the top level is.
pub proof fn law_the_dot_before_the_cursor_decides(
    db: Builtins,
    m: Model,
    pos: Position,
    resolved: Seq<(Seq<char>, ResolutionFacts)>,
    before: Seq<char>,
    namespace: Seq<char>,
    start: Seq<char>,
    behind: Seq<char>,
)
    requires
        is_run(namespace),
        is_run(start),
        !start.contains('.'),
        before.len() > 0 ==> is_boundary(before.last()),
    ensures
        m.text == before + (namespace + "."@ + start) + behind && offset_of(
            m.text,
            pos.line as int,
            pos.character as int,
        ) == byte_len(before + (namespace + "."@ + start)) ==> completions_of(db, m, pos, resolved)
            == namespace_items(db, namespace) + imported_items(resolved, namespace),
        m.text == before + start + behind && offset_of(
            m.text,
            pos.line as int,
            pos.character as int,
        ) == byte_len(before + start) ==> completions_of(db, m, pos, resolved) == top_items(db, m),
{
    reveal_strlit(".");
    let run = namespace + "."@ + start;
    assert(is_run(run));
    law_run_before_an_offset(before, run, behind);
    law_run_before_an_offset(before, start, behind);
    law_namespace_is_before_the_last_dot(namespace, start);
}

// ---------------------------------------------------------------------------
// Completing
// ---------------------------------------------------------------------------

/// Completions: members of `namespace.` after a dot, otherwise all top-level
/// builtins + keywords + imports.
///
/// `found` is what was found of the libraries behind the document's imports, in
/// the order of its import table. `None` (e.g. an in-memory document) gives
/// builtins only. Imported members are appended after the builtin ones.
pub fn completions_at(
    db: &Builtins,
    doc: &Document,
    pos: Position,
    found: Option<Vec<LibrarySource>>,
) -> (r: Vec<CompletionItem>)
    requires
        doc.wf(),
        found matches Some(list) ==> list@.len() == imports_of(doc@).len() && forall|i: int|
            0 <= i < list@.len() ==> source_wf(#[trigger] list@[i]),
    ensures
        views(r@) == completions_of(
            *db,
            doc@,
            pos,
            match found {
                Some(list) => resolved_pairs(doc@, list@),
                None => Seq::empty(),
            },
        ),
{
    match found {
        Some(list) => {
            let pairs = resolve_pairs(doc, list);
            completions_at_cached(db, doc, pos, &pairs)
        },
        None => {
            let none: Vec<(String, ImportResolution)> = Vec::new();
            proof {
                assert(pair_views(none@) =~= Seq::empty());
            }
            completions_at_cached(db, doc, pos, &none)
        },
    }
}

/// The `(effective_namespace, resolution)` pairs of a document's imports, given what
/// was found of the libraries.
pub fn resolve_pairs(doc: &Document, found: Vec<LibrarySource>) -> (r: Vec<
    (String, ImportResolution),
>)
    requires
        doc.wf(),
        found@.len() == imports_of(doc@).len(),
        forall|i: int| 0 <= i < found@.len() ==> source_wf(#[trigger] found@[i]),
    ensures
        pair_views(r@) == resolved_pairs(doc@, found@),
{
    let ghost all = found@;
    let table = import_table(doc);
    let resolved = resolve_imports(&table, found);
    let records = resolved.entries();
    let pairs = project(records);
    proof {
        assert(views(records@).len() == records@.len());
        assert forall|i: int| 0 <= i < pairs@.len() implies #[trigger] pair_views(pairs@)[i]
            == resolved_pairs(doc@, all)[i] by {
            assert(resolved@[i] == records@[i]@);
        }
        assert(pair_views(pairs@) =~= resolved_pairs(doc@, all));
    }
    pairs
}

/// The `(effective_namespace, resolution)` pairs of resolved imports.
fn project(resolved: &[crate::imports::ResolvedImport]) -> (r: Vec<(String, ImportResolution)>)
    ensures
        r@.len() == resolved@.len(),
        forall|i: int|
            0 <= i < r@.len() ==> #[trigger] pair_views(r@)[i] == (
                resolved@[i].entry@.namespace(),
                resolved@[i].resolution@,
            ),
{
    let mut out: Vec<(String, ImportResolution)> = Vec::new();
    let mut k: usize = 0;
    while k < resolved.len()
        invariant
            k <= resolved@.len(),
            out@.len() == k,
            forall|i: int|
                0 <= i < k ==> (#[trigger] out@[i]).0@ == resolved@[i].entry@.namespace()
                    && out@[i].1@ == resolved@[i].resolution@,
        decreases resolved@.len() - k,
    {
        let one = &resolved[k];
        out.push((one.entry.effective_namespace().to_owned(), one.resolution.clone()));
        k = k + 1;
    }
    out
}

/// [`completions_at`] on imports that are already resolved.
pub fn completions_at_cached(
    db: &Builtins,
    doc: &Document,
    pos: Position,
    resolved: &Vec<(String, ImportResolution)>,
) -> (r: Vec<CompletionItem>)
    requires
        doc.wf(),
    ensures
        views(r@) == completions_of(*db, doc@, pos, pair_views(resolved@)),
{
    let byte: usize = doc.offset_at(pos.line, pos.character);
    let run = trailing_run(doc.text(), byte);
    match run_namespace(run.as_str()) {
        Some(namespace) => {
            let mut items = namespace_members(db, namespace.as_str());
            append_imported_members_cached(namespace.as_str(), resolved, &mut items);
            items
        },
        None => top_level_items(db, doc),
    }
}

/// Append the members of the library behind `namespace`. Only `Resolved` entries
/// contribute members.
fn append_imported_members_cached(
    namespace: &str,
    resolved: &Vec<(String, ImportResolution)>,
    items: &mut Vec<CompletionItem>,
)
    ensures
        views(final(items)@) == views(old(items)@) + imported_items(
            pair_views(resolved@),
            namespace@,
        ),
{
    let ghost all = pair_views(resolved@);
    let mut k: usize = 0;
    while k < resolved.len()
        invariant
            k <= resolved@.len(),
            all == pair_views(resolved@),
            views(items@) == views(old(items)@),
            pair_named(all, namespace@, 0) == pair_named(all, namespace@, k as int),
        decreases resolved@.len() - k,
    {
        proof {
            assert(all[k as int] == (resolved@[k as int].0@, resolved@[k as int].1@));
        }
        if str_eq(resolved[k].0.as_str(), namespace) {
            append_resolution(&resolved[k].1, items);
            return;
        }
        k = k + 1;
    }
    proof {
        assert(views(items@) =~= views(items@) + imported_items(all, namespace@));
    }
}

fn append_resolution(resolution: &ImportResolution, items: &mut Vec<CompletionItem>)
    ensures
        views(final(items)@) == views(old(items)@) + resolution_items(resolution@),
{
    match resolution {
        ImportResolution::Resolved { path, symbols } => {
            let ghost start = views(items@);
            let ghost offered = resolution_items(resolution@);
            let mut k: usize = 0;
            proof {
                assert(start =~= start + offered.take(0));
            }
            while k < symbols.len()
                invariant
                    k <= symbols@.len(),
                    offered.len() == symbols@.len(),
                    offered == resolution_items(resolution@),
                    resolution@ == (ResolutionFacts::Resolved {
                        path: *path,
                        symbols: views(symbols@),
                    }),
                    views(items@) == start + offered.take(k as int),
                decreases symbols@.len() - k,
            {
                let one = exported_item(&symbols[k]);
                proof {
                    lemma_views_push(items@, one);
                    assert(offered[k as int] == one@);
                    assert(views(items@).push(one@) =~= start + offered.take(k + 1));
                }
                items.push(one);
                k = k + 1;
            }
            proof {
                assert(offered.take(offered.len() as int) =~= offered);
            }
        },
        _ => {
            proof {
                assert(views(items@) =~= views(items@) + resolution_items(resolution@));
            }
        },
    }
}

/// Map an [`ExportedSymbol`] to a bare-member [`CompletionItem`].
pub fn exported_item(symbol: &ExportedSymbol) -> (r: CompletionItem)
    ensures
        r@ == export_item(symbol@),
{
    let kind = match symbol.kind {
        ExportKind::Function | ExportKind::Method => CompletionItemKind::Function,
        ExportKind::Type => CompletionItemKind::Struct,
        ExportKind::Enum => CompletionItemKind::Enum,
    };
    item(symbol.name.clone(), kind, exported_detail(symbol))
}

fn param_signature(param: &ExportedParam) -> (r: String)
    ensures
        r@ == param_text(param@),
{
    let mut typed = match &param.declared_type {
        Some(t) => concat3(t.as_str(), " ", param.name.as_str()),
        None => param.name.clone(),
    };
    if param.has_default {
        typed.append("=…");
    }
    typed
}

/// A synthesized one-line signature for an exported fn/method
/// (`name(type a, type b=…)`); empty for types and enums (which carry no
/// params).
pub fn exported_detail(symbol: &ExportedSymbol) -> (r: String)
    ensures
        r@ == export_detail(symbol@),
{
    match symbol.kind {
        ExportKind::Function | ExportKind::Method => {
            let ghost texts = symbol@.params.map_values(|p: ParamFacts| param_text(p));
            let mut params: Vec<String> = Vec::new();
            let mut k: usize = 0;
            proof {
                lemma_views_empty::<String>();
                assert(texts.take(0) =~= Seq::empty());
            }
            while k < symbol.params.len()
                invariant
                    k <= symbol.params@.len(),
                    texts == symbol@.params.map_values(|p: ParamFacts| param_text(p)),
                    views(params@) == texts.take(k as int),
                decreases symbol.params@.len() - k,
            {
                let one = param_signature(&symbol.params[k]);
                proof {
                    lemma_views_push(params@, one);
                    assert(texts[k as int] == one@);
                    assert(texts.take(k as int).push(one@) =~= texts.take(k + 1));
                }
                params.push(one);
                k = k + 1;
            }
            proof {
                assert(texts.take(texts.len() as int) =~= texts);
            }
            let mut out = concat3(symbol.name.as_str(), "(", str_join(&params, ", ").as_str());
            out.append(")");
            out
        },
        ExportKind::Type | ExportKind::Enum => String::new(),
    }
}

fn item(label: String, kind: CompletionItemKind, detail: String) -> (r: CompletionItem)
    ensures
        r@ == item_of(label@, kind, detail@),
{
    let detail = if detail.as_str().is_empty() {
        None
    } else {
        Some(detail)
    };
    CompletionItem { label, kind, detail }
}

fn fn_detail(f: &BuiltinFunction) -> (r: String)
    ensures
        r@ == function_detail(*f),
{
    if f.syntax.as_str().is_empty() {
        f.returns.clone()
    } else {
        f.syntax.clone()
    }
}

fn push_item(items: &mut Vec<CompletionItem>, one: CompletionItem, Ghost(all): Ghost<Seq<ItemFacts>>)
    requires
        old(items)@.len() < all.len(),
        views(old(items)@) == all.take(old(items)@.len() as int),
        one@ == all[old(items)@.len() as int],
    ensures
        final(items)@.len() == old(items)@.len() + 1,
        views(final(items)@) == all.take(final(items)@.len() as int),
{
    proof {
        lemma_views_push(items@, one);
        assert(views(items@).push(one@) =~= all.take(items@.len() as int + 1));
    }
    items.push(one);
}

/// The items of all builtins under their full names.
fn all_builtins(db: &Builtins) -> (r: Vec<CompletionItem>)
    ensures
        views(r@) == builtin_items(*db),
{
    let ghost all = builtin_items(*db);
    let ghost nf = db.functions@.len();
    let ghost nv = db.variables@.len();
    let mut items: Vec<CompletionItem> = Vec::new();
    proof {
        lemma_views_empty::<CompletionItem>();
        assert(all.take(0) =~= Seq::empty());
    }
    let mut k: usize = 0;
    while k < db.functions.len()
        invariant
            k <= db.functions@.len(),
            all == builtin_items(*db),
            items@.len() == k,
            views(items@) == all.take(k as int),
        decreases db.functions@.len() - k,
    {
        let f = &db.functions[k];
        let one = item(f.name.clone(), CompletionItemKind::Function, fn_detail(f));
        push_item(&mut items, one, Ghost(all));
        k = k + 1;
    }
    let mut k: usize = 0;
    while k < db.variables.len()
        invariant
            k <= db.variables@.len(),
            all == builtin_items(*db),
            nf == db.functions@.len(),
            items@.len() == nf + k,
            views(items@) == all.take(nf + k),
        decreases db.variables@.len() - k,
    {
        let v = &db.variables[k];
        let one = item(v.name.clone(), CompletionItemKind::Variable, v.ty.clone());
        push_item(&mut items, one, Ghost(all));
        k = k + 1;
    }
    let mut k: usize = 0;
    while k < db.constants.len()
        invariant
            k <= db.constants@.len(),
            all == builtin_items(*db),
            nf == db.functions@.len(),
            nv == db.variables@.len(),
            items@.len() == nf + nv + k,
            views(items@) == all.take(nf + nv + k),
        decreases db.constants@.len() - k,
    {
        let c = &db.constants[k];
        let one = item(c.name.clone(), CompletionItemKind::Constant, c.ty.clone());
        push_item(&mut items, one, Ghost(all));
        k = k + 1;
    }
    proof {
        assert(all.take(all.len() as int) =~= all);
    }
    items
}

fn has_dot(text: &str) -> (r: bool)
    ensures
        r == text@.contains('.'),
{
    for c in it: text.chars()
        invariant
            it.seq() == text@,
            forall|j: int| 0 <= j < it.index() ==> text@[j] != '.',
    {
        if c == '.' {
            proof {
                assert(text@[it.index() as int] == '.');
            }
            return true;
        }
    }
    false
}

/// The builtin members of the namespace `ns`.
fn namespace_members(db: &Builtins, ns: &str) -> (r: Vec<CompletionItem>)
    ensures
        views(r@) == namespace_items(*db, ns@),
{
    let prefix = concat(ns, ".");
    let all = all_builtins(db);
    let ghost items = builtin_items(*db);
    let mut out: Vec<CompletionItem> = Vec::new();
    let mut k: usize = 0;
    proof {
        lemma_views_empty::<CompletionItem>();
    }
    while k < all.len()
        invariant
            k <= all@.len(),
            views(all@) == items,
            prefix@ == ns@ + "."@,
            views(out@) == members_upto(items, prefix@, k as int),
        decreases all@.len() - k,
    {
        let candidate = &all[k];
        proof {
            assert(items[k as int] == candidate@);
        }
        if let Some(member) = str_strip_prefix(candidate.label.as_str(), prefix.as_str()) {
            if !has_dot(member.as_str()) {
                let one = CompletionItem {
                    label: member,
                    kind: candidate.kind,
                    detail: match &candidate.detail {
                        Some(d) => Some(d.clone()),
                        None => None,
                    },
                };
                proof {
                    lemma_views_push(out@, one);
                }
                out.push(one);
            }
        }
        k = k + 1;
    }
    out
}

/// True when `name` is the head namespace of some builtin (i.e. there exists a
/// builtin `name.<member>`).
fn is_builtin_namespace_head(db: &Builtins, all: &Vec<CompletionItem>, name: &str) -> (r: bool)
    requires
        all@.len() >= builtin_items(*db).len(),
        views(all@).take(builtin_items(*db).len() as int) == builtin_items(*db),
    ensures
        r == is_namespace_head(*db, name@),
{
    let prefix = concat(name, ".");
    let ghost items = builtin_items(*db);
    let mut k: usize = 0;
    while k < all.len()
        invariant
            k <= all@.len(),
            k <= items.len(),
            items == builtin_items(*db),
            items.len() <= all@.len(),
            items.len() == db.functions@.len() + db.variables@.len() + db.constants@.len(),
            views(all@).take(items.len() as int) == items,
            prefix@ == name@ + "."@,
            forall|i: int| 0 <= i < k ==> !starts_with((#[trigger] items[i]).label, prefix@),
        decreases all@.len() - k,
    {
        if k >= db.functions.len() && k - db.functions.len() >= db.variables.len() && k
            - db.functions.len() - db.variables.len() >= db.constants.len() {
            return false;
        }
        proof {
            assert(items[k as int] == views(all@).take(items.len() as int)[k as int]);
            assert(items[k as int] == all@[k as int]@);
        }
        if str_starts_with(all[k].label.as_str(), prefix.as_str()) {
            return true;
        }
        k = k + 1;
    }
    false
}

/// Everything at the top level: builtins, keywords, and one MODULE item per
/// import whose name is no builtin namespace.
fn top_level_items(db: &Builtins, doc: &Document) -> (r: Vec<CompletionItem>)
    requires
        doc.wf(),
    ensures
        views(r@) == top_items(*db, doc@),
{
    let ghost builtins = builtin_items(*db);
    let ghost words = keyword_items(*db);
    let mut items = all_builtins(db);
    let mut k: usize = 0;
    proof {
        assert(builtins =~= builtins + words.take(0));
    }
    while k < db.keywords.all.len()
        invariant
            k <= db.keywords.all@.len(),
            words == keyword_items(*db),
            views(items@) == builtins + words.take(k as int),
        decreases db.keywords.all@.len() - k,
    {
        let one = CompletionItem {
            label: db.keywords.all[k].clone(),
            kind: CompletionItemKind::Keyword,
            detail: None,
        };
        proof {
            lemma_views_push(items@, one);
            assert(words[k as int] == one@);
            assert(views(items@).push(one@) =~= builtins + words.take(k + 1));
        }
        items.push(one);
        k = k + 1;
    }
    let ghost base = builtins + words;
    let table = import_table(doc);
    let entries = table.entries();
    let ghost all = imports_of(doc@);
    let mut k: usize = 0;
    proof {
        assert(words.take(words.len() as int) =~= words);
        assert(views(items@) =~= base + import_items_upto(*db, all, 0));
    }
    while k < entries.len()
        invariant
            k <= entries@.len(),
            views(entries@) == all,
            builtins == builtin_items(*db),
            base == builtins + words,
            views(items@) == base + import_items_upto(*db, all, k as int),
        decreases entries@.len() - k,
    {
        let entry = &entries[k];
        proof {
            assert(all[k as int] == entry@);
            assert(views(items@).len() == items@.len());
            assert(views(items@).take(builtins.len() as int) =~= builtins);
        }
        if !is_builtin_namespace_head(db, &items, entry.effective_namespace()) {
            let one = import_completion(entry);
            proof {
                lemma_views_push(items@, one);
                assert(views(items@).push(one@) =~= base + import_items_upto(*db, all, k + 1));
            }
            items.push(one);
        }
        k = k + 1;
    }
    proof {
        assert(views(items@) =~= top_items(*db, doc@));
    }
    items
}

fn import_completion(entry: &ImportEntry) -> (r: CompletionItem)
    ensures
        r@ == import_item(entry@),
{
    let mut detail = concat3("import ", entry.user.as_str(), "/");
    detail.append(entry.lib.as_str());
    detail.append("/");
    detail.append(entry.version.as_str());
    CompletionItem {
        label: entry.effective_namespace().to_owned(),
        kind: CompletionItemKind::Module,
        detail: Some(detail),
    }
}

}
