//! Going to definitions, finding references, renaming.

use std::path::PathBuf;

use vstd::prelude::*;
use vstd::string::*;

use crate::builtins::{is_builtin, Builtins};
use crate::document::Document;
use crate::features::completion::{pair_named, pair_views, resolve_pairs, resolved_pairs};
use crate::imports::{
    exports_of, imports_of, law_export_span_is_its_name, resolution_of, source_wf, ExportFacts,
    ImportResolution, LibrarySource, ResolutionFacts,
};
use crate::lsp::{
    byte_range, range_of, EditTextFacts, Location, LocationFacts, Position, Range, TextEdit,
    WorkspaceEdit, WorkspaceEditFacts,
};
use crate::strings::{lemma_views_empty, lemma_views_push, opt_view, slice_bytes, str_eq, views};
use crate::symbols::{
    all_defs, all_refs, definitions, identifier_at, identifier_of,
    law_every_occurrence_is_a_reference, law_references_spell_the_name,
    references as symbol_references, span_views, spells_freely, DefFacts,
};
use crate::syntax::{child_by_field, enclosing, enclosing_node, field_child, Model};
use crate::text::offset_of;

verus! {

/// The offset of an editor position.
pub open spec fn byte_of(m: Model, pos: Position) -> int {
    offset_of(m.text, pos.line as int, pos.character as int)
}

// ---------------------------------------------------------------------------
// Definitions
// ---------------------------------------------------------------------------

/// Where a definition is.
#[derive(Debug, Clone, PartialEq, Eq)]
pub enum GotoTarget {
    /// In the document itself.
    Here(Location),
    /// The bytes `start..end` of the library at `path`.
    Library { path: PathBuf, start: usize, end: usize },
}

/// What a [`GotoTarget`] says.
pub enum TargetFacts {
    Here(LocationFacts),
    Library { path: PathBuf, start: int, end: int },
}

impl View for GotoTarget {
    type V = TargetFacts;

    open spec fn view(&self) -> TargetFacts {
        match self {
            GotoTarget::Here(location) => TargetFacts::Here(location@),
            GotoTarget::Library { path, start, end } => TargetFacts::Library {
                path: *path,
                start: *start as int,
                end: *end as int,
            },
        }
    }
}

/// The first definition, from `k` on, of `name`.
pub open spec fn def_named(defs: Seq<DefFacts>, name: Seq<char>, k: int) -> Option<int>
    decreases defs.len() - k,
{
    if k >= defs.len() {
        None
    } else if defs[k].name == name {
        Some(k)
    } else {
        def_named(defs, name, k + 1)
    }
}

/// The definition, in the document, of the identifier at an offset.
pub open spec fn local_definition(m: Model, byte: int) -> Option<DefFacts> {
    match identifier_of(m, byte) {
        Some((name, start, end)) => match def_named(all_defs(m), name, 0) {
            Some(i) => Some(all_defs(m)[i]),
            None => None,
        },
        None => None,
    }
}

/// The two sides of the member access `object.member` whose member is at an
/// offset.
pub open spec fn member_access(m: Model, byte: int) -> Option<(Seq<char>, Seq<char>)> {
    let leaf = m.named_at(byte);
    match enclosing(m.nodes, leaf, "attribute"@) {
        Some(access) => match (
            field_child(m.nodes, access, "object"@),
            field_child(m.nodes, access, "attribute"@),
        ) {
            (Some(object), Some(member)) if member == leaf => Some(
                (m.node_text(object), m.node_text(member)),
            ),
            _ => None,
        },
        None => None,
    }
}

/// The first export, from `k` on, of `name`.
pub open spec fn export_index(symbols: Seq<ExportFacts>, name: Seq<char>, k: int) -> Option<int>
    decreases symbols.len() - k,
{
    if k >= symbols.len() {
        None
    } else if symbols[k].name == name {
        Some(k)
    } else {
        export_index(symbols, name, k + 1)
    }
}

/// The export `member` of a resolved library.
pub open spec fn exported_target(
    resolution: ResolutionFacts,
    member: Seq<char>,
) -> Option<TargetFacts> {
    match resolution {
        ResolutionFacts::Resolved { path, symbols } => match export_index(symbols, member, 0) {
            Some(i) => Some(
                TargetFacts::Library {
                    path,
                    start: symbols[i].name_byte_start,
                    end: symbols[i].name_byte_end,
                },
            ),
            None => None,
        },
        _ => None,
    }
}

/// The definition, in an imported library, of the member at an offset.
pub open spec fn imported_definition(
    m: Model,
    byte: int,
    resolved: Seq<(Seq<char>, ResolutionFacts)>,
) -> Option<TargetFacts> {
    match member_access(m, byte) {
        Some((object, member)) => match pair_named(resolved, object, 0) {
            Some(i) => exported_target(resolved[i].1, member),
            None => None,
        },
        None => None,
    }
}

/// Where the symbol at a position is defined: in the document, and only where it
/// is not, in a library.
pub open spec fn definition_of(
    m: Model,
    pos: Position,
    uri: Seq<char>,
    resolved: Seq<(Seq<char>, ResolutionFacts)>,
) -> Option<TargetFacts> {
    let byte = byte_of(m, pos);
    match local_definition(m, byte) {
        Some(def) => Some(
            TargetFacts::Here(
                LocationFacts { uri, range: range_of(m.text, def.start_byte, def.end_byte) },
            ),
        ),
        None => imported_definition(m, byte, resolved),
    }
}

/// A symbol that the document defines is never looked for in a library.
pub proof fn law_local_definition_wins(
    m: Model,
    pos: Position,
    uri: Seq<char>,
    resolved: Seq<(Seq<char>, ResolutionFacts)>,
)
    requires
        local_definition(m, byte_of(m, pos)) is Some,
    ensures
        definition_of(m, pos, uri, resolved) == definition_of(m, pos, uri, Seq::empty()),
        definition_of(m, pos, uri, resolved) matches Some(TargetFacts::Here(location))
            && location.uri == uri,
{
}

proof fn lemma_pair_named(
    resolved: Seq<(Seq<char>, ResolutionFacts)>,
    namespace: Seq<char>,
    k: int,
)
    requires
        0 <= k,
    ensures
        pair_named(resolved, namespace, k) matches Some(i) ==> k <= i < resolved.len()
            && resolved[i].0 == namespace,
    decreases resolved.len() - k,
{
    if k < resolved.len() && resolved[k].0 != namespace {
        lemma_pair_named(resolved, namespace, k + 1);
    }
}

proof fn lemma_export_index(symbols: Seq<ExportFacts>, name: Seq<char>, k: int)
    requires
        0 <= k,
    ensures
        export_index(symbols, name, k) matches Some(i) ==> k <= i < symbols.len()
            && symbols[i].name == name,
    decreases symbols.len() - k,
{
    if k < symbols.len() && symbols[k].name != name {
        lemma_export_index(symbols, name, k + 1);
    }
}

/// A jump into a library lands in a library that an import with a directive
/// leads to, and the bytes there are the member under the cursor. A member that
/// is not exported is never found.
pub proof fn law_goto_lands_on_the_member(m: Model, byte: int, found: Seq<LibrarySource>)
    requires
        found.len() == imports_of(m).len(),
        imported_definition(m, byte, resolved_pairs(m, found)) is Some,
    ensures
        exists|i: int|
            #![trigger found[i]]
            {
                &&& 0 <= i < found.len()
                &&& imports_of(m)[i].source is Some
                &&& member_access(m, byte) matches Some((object, member))
                &&& imports_of(m)[i].namespace() == object
                &&& found[i] matches LibrarySource::Loaded { path, doc }
                &&& imported_definition(m, byte, resolved_pairs(m, found))
                    matches Some(TargetFacts::Library { path: p, start, end })
                &&& p == path
                &&& slice_bytes(doc@.text, start, end) == member
            },
{
    let resolved = resolved_pairs(m, found);
    let (object, member) = member_access(m, byte)->0;
    lemma_pair_named(resolved, object, 0);
    let i = pair_named(resolved, object, 0)->0;
    assert(resolved[i] == (
        imports_of(m)[i].namespace(),
        resolution_of(imports_of(m)[i].source, found[i]),
    ));
    if let LibrarySource::Loaded { path, doc } = found[i] {
        let symbols = exports_of(doc@);
        lemma_export_index(symbols, member, 0);
        let x = export_index(symbols, member, 0)->0;
        law_export_span_is_its_name(doc@, x);
    }
}

/// Go-to-definition for the user symbol under the cursor.
///
/// Same-file resolution runs FIRST: an identifier that matches a top-level
/// definition or a parameter of this document jumps within the file. Only when the
/// cursor is on the MEMBER side of an `alias.member` access (and no same-file
/// definition matched) is the exported symbol looked for in the imported library.
///
/// `found` is what was found of the libraries behind the document's imports, in
/// the order of its import table; `None` gives same-file goto only.
pub fn goto_definition(
    doc: &Document,
    pos: Position,
    uri: &str,
    found: Option<Vec<LibrarySource>>,
) -> (r: Option<GotoTarget>)
    requires
        doc.wf(),
        found matches Some(list) ==> list@.len() == imports_of(doc@).len() && forall|i: int|
            0 <= i < list@.len() ==> source_wf(#[trigger] list@[i]),
    ensures
        opt_view(r) == definition_of(
            doc@,
            pos,
            uri@,
            match found {
                Some(list) => resolved_pairs(doc@, list@),
                None => Seq::empty(),
            },
        ),
{
    match found {
        Some(list) => {
            let pairs = resolve_pairs(doc, list);
            goto_definition_cached(doc, pos, uri, &pairs)
        },
        None => {
            let none: Vec<(String, ImportResolution)> = Vec::new();
            proof {
                assert(pair_views(none@) =~= Seq::empty());
            }
            goto_definition_cached(doc, pos, uri, &none)
        },
    }
}

/// [`goto_definition`] on imports that are already resolved.
pub fn goto_definition_cached(
    doc: &Document,
    pos: Position,
    uri: &str,
    resolved: &Vec<(String, ImportResolution)>,
) -> (r: Option<GotoTarget>)
    requires
        doc.wf(),
    ensures
        opt_view(r) == definition_of(doc@, pos, uri@, pair_views(resolved@)),
{
    let byte: usize = doc.offset_at(pos.line, pos.character);
    if let Some((name, _start, _end)) = identifier_at(doc, byte) {
        let defs = definitions(doc);
        let ghost all = all_defs(doc@);
        let mut k: usize = 0;
        while k < defs.len()
            invariant
                doc.wf(),
                k <= defs@.len(),
                views(defs@) == all,
                all == all_defs(doc@),
                byte == byte_of(doc@, pos),
                identifier_of(doc@, byte as int) matches Some(found) && found.0 == name@,
                def_named(all, name@, 0) == def_named(all, name@, k as int),
            decreases defs@.len() - k,
        {
            let def = &defs[k];
            proof {
                assert(all[k as int] == def@);
            }
            if str_eq(def.name.as_str(), name.as_str()) {
                return Some(
                    GotoTarget::Here(
                        Location {
                            uri: uri.to_owned(),
                            range: byte_range(doc, def.start_byte, def.end_byte),
                        },
                    ),
                );
            }
            k = k + 1;
        }
    }
    goto_imported_member_cached(doc, byte, resolved)
}

/// The two sides of the member access whose member is at `byte`.
fn access_at(doc: &Document, byte: usize) -> (r: Option<(&str, &str)>)
    requires
        doc.wf(),
    ensures
        match r {
            Some((object, member)) => member_access(doc@, byte as int) == Some((object@, member@)),
            None => member_access(doc@, byte as int) is None,
        },
{
    let leaf: usize = doc.named_node(byte);
    match enclosing_node(doc.tree(), leaf, "attribute") {
        Some(access) => match (
            child_by_field(doc.tree(), access, "object"),
            child_by_field(doc.tree(), access, "attribute"),
        ) {
            (Some(object), Some(member)) => {
                // The cursor must be on the member identifier, not the object.
                if member == leaf {
                    Some((doc.node_text(object), doc.node_text(member)))
                } else {
                    None
                }
            },
            _ => None,
        },
        None => None,
    }
}

/// Go into an imported library when the cursor sits on the MEMBER side of an
/// `alias.member` access. `None` when the object is no imported namespace, its
/// import is not resolved, or the member is not exported.
fn goto_imported_member_cached(
    doc: &Document,
    byte: usize,
    resolved: &Vec<(String, ImportResolution)>,
) -> (r: Option<GotoTarget>)
    requires
        doc.wf(),
    ensures
        opt_view(r) == imported_definition(doc@, byte as int, pair_views(resolved@)),
{
    let (object, member) = match access_at(doc, byte) {
        Some(sides) => sides,
        None => {
            return None;
        },
    };
    let ghost all = pair_views(resolved@);
    let mut k: usize = 0;
    while k < resolved.len()
        invariant
            k <= resolved@.len(),
            all == pair_views(resolved@),
            member_access(doc@, byte as int) == Some((object@, member@)),
            pair_named(all, object@, 0) == pair_named(all, object@, k as int),
        decreases resolved@.len() - k,
    {
        proof {
            assert(all[k as int] == (resolved@[k as int].0@, resolved@[k as int].1@));
        }
        if str_eq(resolved[k].0.as_str(), object) {
            return find_export(&resolved[k].1, member);
        }
        k = k + 1;
    }
    None
}

fn find_export(resolution: &ImportResolution, member: &str) -> (r: Option<GotoTarget>)
    ensures
        opt_view(r) == exported_target(resolution@, member@),
{
    match resolution {
        ImportResolution::Resolved { path, symbols } => {
            let ghost all = views(symbols@);
            let mut k: usize = 0;
            while k < symbols.len()
                invariant
                    k <= symbols@.len(),
                    all == views(symbols@),
                    resolution@ == (ResolutionFacts::Resolved { path: *path, symbols: all }),
                    export_index(all, member@, 0) == export_index(all, member@, k as int),
                decreases symbols@.len() - k,
            {
                let symbol = &symbols[k];
                proof {
                    assert(all[k as int] == symbol@);
                }
                if str_eq(symbol.name.as_str(), member) {
                    return Some(
                        GotoTarget::Library {
                            path: path.clone(),
                            start: symbol.name_byte_start,
                            end: symbol.name_byte_end,
                        },
                    );
                }
                k = k + 1;
            }
            None
        },
        _ => None,
    }
}

/// The range of an export's name in the library it comes from. The offsets are
/// those of the library's text, so the library's own line index is used.
pub fn library_range(library: &Document, start: usize, end: usize) -> (r: Range)
    requires
        library.wf(),
    ensures
        r == range_of(library@.text, start as int, end as int),
{
    byte_range(library, start, end)
}

// ---------------------------------------------------------------------------
// References and renaming
// ---------------------------------------------------------------------------

pub open spec fn location_of(m: Model, uri: Seq<char>, span: (int, int)) -> LocationFacts {
    LocationFacts { uri, range: range_of(m.text, span.0, span.1) }
}

/// All references to the symbol at a position.
pub open spec fn locations_of(m: Model, pos: Position, uri: Seq<char>) -> Seq<LocationFacts> {
    match identifier_of(m, byte_of(m, pos)) {
        Some((name, start, end)) => all_refs(m, name).map_values(
            |span: (int, int)| location_of(m, uri, span),
        ),
        None => Seq::empty(),
    }
}

/// All references to the user symbol under the cursor.
pub fn references(doc: &Document, pos: Position, uri: &str) -> (r: Vec<Location>)
    requires
        doc.wf(),
    ensures
        views(r@) == locations_of(doc@, pos, uri@),
{
    let mut out: Vec<Location> = Vec::new();
    proof {
        lemma_views_empty::<Location>();
    }
    let byte: usize = doc.offset_at(pos.line, pos.character);
    let name = match identifier_at(doc, byte) {
        Some((name, _start, _end)) => name,
        None => {
            return out;
        },
    };
    let spans = symbol_references(doc, name.as_str());
    let ghost refs = all_refs(doc@, name@);
    let ghost all = locations_of(doc@, pos, uri@);
    let mut k: usize = 0;
    proof {
        assert(all.take(0) =~= Seq::empty());
        assert(span_views(spans@).len() == spans@.len());
    }
    while k < spans.len()
        invariant
            doc.wf(),
            k <= spans@.len(),
            span_views(spans@) == refs,
            all == refs.map_values(|span: (int, int)| location_of(doc@, uri@, span)),
            all.len() == spans@.len(),
            views(out@) == all.take(k as int),
        decreases spans@.len() - k,
    {
        let span = spans[k];
        let one = Location { uri: uri.to_owned(), range: byte_range(doc, span.0, span.1) };
        proof {
            assert(refs[k as int] == (span.0 as int, span.1 as int));
            lemma_views_push(out@, one);
            assert(all[k as int] == one@);
            assert(all.take(k as int).push(one@) =~= all.take(k + 1));
        }
        out.push(one);
        k = k + 1;
    }
    proof {
        assert(all.take(all.len() as int) =~= all);
    }
    out
}

pub open spec fn edit_for(m: Model, new_name: Seq<char>, span: (int, int)) -> EditTextFacts {
    EditTextFacts { range: range_of(m.text, span.0, span.1), new_text: new_name }
}

/// The edits that rename the symbol at a position. Builtins are not renamed.
pub open spec fn rename_of(
    db: Builtins,
    m: Model,
    pos: Position,
    new_name: Seq<char>,
    uri: Seq<char>,
) -> Option<WorkspaceEditFacts> {
    match identifier_of(m, byte_of(m, pos)) {
        Some((name, start, end)) if !db.has(name) && all_refs(m, name).len() > 0 => Some(
            WorkspaceEditFacts {
                uri,
                edits: all_refs(m, name).map_values(
                    |span: (int, int)| edit_for(m, new_name, span),
                ),
            },
        ),
        _ => None,
    }
}

/// A rename replaces occurrences of the symbol's name, and only those, by the
/// new name.
pub proof fn law_rename_replaces_the_name(
    db: Builtins,
    m: Model,
    pos: Position,
    new_name: Seq<char>,
    uri: Seq<char>,
    x: int,
)
    requires
        rename_of(db, m, pos, new_name, uri) matches Some(edit) && 0 <= x < edit.edits.len(),
    ensures
        ({
            let edits = rename_of(db, m, pos, new_name, uri)->0.edits;
            let name = (identifier_of(m, byte_of(m, pos))->0).0;
            exists|span: (int, int)|
                edits[x] == #[trigger] edit_for(m, new_name, span) && slice_bytes(
                    m.text,
                    span.0,
                    span.1,
                ) == name
        }),
{
    let edits = rename_of(db, m, pos, new_name, uri)->0.edits;
    let name = (identifier_of(m, byte_of(m, pos))->0).0;
    let span = all_refs(m, name)[x];
    law_references_spell_the_name(m, name, x);
    assert(edits[x] == edit_for(m, new_name, span));
}

/// A builtin is never renamed, and a rename goes ahead only where it could be
/// prepared.
pub proof fn law_builtins_are_not_renamed(
    db: Builtins,
    m: Model,
    pos: Position,
    new_name: Seq<char>,
    uri: Seq<char>,
)
    ensures
        rename_of(db, m, pos, new_name, uri) is Some ==> rename_range(db, m, pos) is Some,
        identifier_of(m, byte_of(m, pos)) matches Some(found) && db.has(found.0) ==> rename_of(
            db,
            m,
            pos,
            new_name,
            uri,
        ) is None && rename_range(db, m, pos) is None,
{
}

proof fn lemma_def_named(defs: Seq<DefFacts>, name: Seq<char>, k: int, i: int)
    requires
        0 <= k <= i <= defs.len(),
        forall|j: int| k <= j < i ==> (#[trigger] defs[j]).name != name,
        i < defs.len() ==> defs[i].name == name,
    ensures
        def_named(defs, name, k) == if i < defs.len() {
            Some(i)
        } else {
            None
        },
    decreases i - k,
{
    if k < i {
        assert(defs[k].name != name);
        lemma_def_named(defs, name, k + 1, i);
    }
}

/// From an identifier the way leads to the first definition of its name in the document,
/// at the bytes of the definition.
pub proof fn law_goto_finds_the_first_definition(
    m: Model,
    pos: Position,
    uri: Seq<char>,
    resolved: Seq<(Seq<char>, ResolutionFacts)>,
    i: int,
)
    requires
        m.nodes[m.named_at(byte_of(m, pos))].kind == "identifier"@,
        0 <= i < all_defs(m).len(),
        all_defs(m)[i].name == m.node_text(m.named_at(byte_of(m, pos))),
        forall|j: int|
            0 <= j < i ==> (#[trigger] all_defs(m)[j]).name != m.node_text(
                m.named_at(byte_of(m, pos)),
            ),
    ensures
        definition_of(m, pos, uri, resolved) == Some(
            TargetFacts::Here(
                LocationFacts {
                    uri,
                    range: range_of(m.text, all_defs(m)[i].start_byte, all_defs(m)[i].end_byte),
                },
            ),
        ),
{
    lemma_def_named(all_defs(m), m.node_text(m.named_at(byte_of(m, pos))), 0, i);
}

proof fn lemma_pair_first(
    resolved: Seq<(Seq<char>, ResolutionFacts)>,
    namespace: Seq<char>,
    k: int,
    i: int,
)
    requires
        0 <= k <= i < resolved.len(),
        resolved[i].0 == namespace,
        forall|j: int| 0 <= j < i ==> (#[trigger] resolved[j]).0 != namespace,
    ensures
        pair_named(resolved, namespace, k) == Some(i),
    decreases i - k,
{
    if k < i {
        lemma_pair_first(resolved, namespace, k + 1, i);
    }
}

proof fn lemma_export_first(symbols: Seq<ExportFacts>, name: Seq<char>, k: int, i: int)
    requires
        0 <= k <= i < symbols.len(),
        symbols[i].name == name,
        forall|j: int| 0 <= j < i ==> (#[trigger] symbols[j]).name != name,
    ensures
        export_index(symbols, name, k) == Some(i),
    decreases i - k,
{
    if k < i {
        lemma_export_first(symbols, name, k + 1, i);
    }
}

/// From the member of `alias.member`, where the document defines no such name itself, the
/// way leads into the library that the alias stands for, to the first export of that
/// name.
pub proof fn law_goto_finds_the_export(
    m: Model,
    pos: Position,
    uri: Seq<char>,
    resolved: Seq<(Seq<char>, ResolutionFacts)>,
    access: int,
    object: int,
    i: int,
    s: int,
)
    requires
        ({
            let leaf = m.named_at(byte_of(m, pos));
            &&& enclosing(m.nodes, leaf, "attribute"@) == Some(access)
            &&& field_child(m.nodes, access, "object"@) == Some(object)
            &&& field_child(m.nodes, access, "attribute"@) == Some(leaf)
            &&& forall|j: int|
                0 <= j < all_defs(m).len() ==> (#[trigger] all_defs(m)[j]).name != m.node_text(leaf)
            &&& 0 <= i < resolved.len()
            &&& resolved[i].0 == m.node_text(object)
            &&& forall|j: int| 0 <= j < i ==> (#[trigger] resolved[j]).0 != m.node_text(object)
            &&& resolved[i].1 is Resolved
            &&& 0 <= s < resolved[i].1->symbols.len()
            &&& resolved[i].1->symbols[s].name == m.node_text(leaf)
            &&& forall|j: int|
                0 <= j < s ==> (#[trigger] resolved[i].1->symbols[j]).name != m.node_text(leaf)
        }),
    ensures
        definition_of(m, pos, uri, resolved) == Some(
            TargetFacts::Library {
                path: resolved[i].1->path,
                start: resolved[i].1->symbols[s].name_byte_start,
                end: resolved[i].1->symbols[s].name_byte_end,
            },
        ),
{
    let leaf = m.named_at(byte_of(m, pos));
    lemma_def_named(all_defs(m), m.node_text(leaf), 0, all_defs(m).len() as int);
    lemma_pair_first(resolved, m.node_text(object), 0, i);
    lemma_export_first(resolved[i].1->symbols, m.node_text(leaf), 0, s);
}

/// A name that the document does not define leads nowhere unless the cursor is on the
/// member of an access whose object is an import, resolved, with an export of that name.
pub proof fn law_goto_needs_a_definition(
    m: Model,
    pos: Position,
    uri: Seq<char>,
    resolved: Seq<(Seq<char>, ResolutionFacts)>,
    access: int,
    object: int,
)
    requires
        ({
            let leaf = m.named_at(byte_of(m, pos));
            &&& forall|j: int|
                0 <= j < all_defs(m).len() ==> (#[trigger] all_defs(m)[j]).name != m.node_text(leaf)
            &&& {
                ||| enclosing(m.nodes, leaf, "attribute"@) is None
                ||| enclosing(m.nodes, leaf, "attribute"@) == Some(access) && field_child(
                    m.nodes,
                    access,
                    "attribute"@,
                ) != Some(leaf)
                ||| enclosing(m.nodes, leaf, "attribute"@) == Some(access) && field_child(
                    m.nodes,
                    access,
                    "object"@,
                ) == Some(object) && forall|j: int|
                    0 <= j < resolved.len() ==> (#[trigger] resolved[j]).0 != m.node_text(object)
            }
        }),
    ensures
        definition_of(m, pos, uri, resolved) is None,
{
    let leaf = m.named_at(byte_of(m, pos));
    lemma_def_named(all_defs(m), m.node_text(leaf), 0, all_defs(m).len() as int);
    lemma_pair_named(resolved, m.node_text(object), 0);
}

/// Every free occurrence of the identifier at a position is listed among its references,
/// each at its own bytes; at anything but an identifier there are none.
pub proof fn law_references_are_listed(m: Model, pos: Position, uri: Seq<char>, i: int)
    requires
        0 <= i < m.nodes.len(),
    ensures
        ({
            let at = m.named_at(byte_of(m, pos));
            &&& m.nodes[at].kind != "identifier"@ ==> locations_of(m, pos, uri).len() == 0
            &&& m.nodes[at].kind == "identifier"@ && spells_freely(m, m.node_text(at), i)
                ==> locations_of(m, pos, uri).contains(
                LocationFacts {
                    uri,
                    range: range_of(m.text, m.nodes[i].start_byte, m.nodes[i].end_byte),
                },
            )
            &&& m.nodes[at].kind == "identifier"@ ==> locations_of(m, pos, uri).len() == all_refs(
                m,
                m.node_text(at),
            ).len()
        }),
{
    let at = m.named_at(byte_of(m, pos));
    let name = m.node_text(at);
    if m.nodes[at].kind == "identifier"@ && spells_freely(m, name, i) {
        law_every_occurrence_is_a_reference(m, name, i);
        let refs = all_refs(m, name);
        let span = (m.nodes[i].start_byte, m.nodes[i].end_byte);
        let x = choose|x: int| 0 <= x < refs.len() && refs[x] == span;
        assert(locations_of(m, pos, uri)[x] == location_of(m, uri, span));
    }
}

/// Renaming an identifier that is no builtin replaces every free occurrence of it by the
/// new name, one edit for each.
pub proof fn law_rename_covers_every_occurrence(
    db: Builtins,
    m: Model,
    pos: Position,
    new_name: Seq<char>,
    uri: Seq<char>,
    i: int,
)
    requires
        0 <= i < m.nodes.len(),
        ({
            let at = m.named_at(byte_of(m, pos));
            &&& m.nodes[at].kind == "identifier"@
            &&& spells_freely(m, m.node_text(at), i)
            &&& db.function_at(m.node_text(at)) is None
            &&& db.variable_at(m.node_text(at)) is None
            &&& db.constant_at(m.node_text(at)) is None
        }),
    ensures
        rename_of(db, m, pos, new_name, uri) matches Some(edit) && edit.uri == uri
            && edit.edits.len() == all_refs(
            m,
            m.node_text(m.named_at(byte_of(m, pos))),
        ).len() && edit.edits.contains(
            EditTextFacts {
                range: range_of(m.text, m.nodes[i].start_byte, m.nodes[i].end_byte),
                new_text: new_name,
            },
        ),
{
    let name = m.node_text(m.named_at(byte_of(m, pos)));
    law_every_occurrence_is_a_reference(m, name, i);
    let refs = all_refs(m, name);
    let span = (m.nodes[i].start_byte, m.nodes[i].end_byte);
    let x = choose|x: int| 0 <= x < refs.len() && refs[x] == span;
    assert((rename_of(db, m, pos, new_name, uri)->0).edits[x] == edit_for(m, new_name, span));
}

/// A rename can be prepared at an identifier that is no builtin, and at nothing else; it
/// is offered on the bytes of the identifier.
pub proof fn law_rename_is_prepared_at_identifiers(db: Builtins, m: Model, pos: Position)
    ensures
        ({
            let at = m.named_at(byte_of(m, pos));
            let is_builtin = db.function_at(m.node_text(at)) is Some || db.variable_at(
                m.node_text(at),
            ) is Some || db.constant_at(m.node_text(at)) is Some;
            if m.nodes[at].kind == "identifier"@ && !is_builtin {
                rename_range(db, m, pos) == Some(
                    range_of(m.text, m.nodes[at].start_byte, m.nodes[at].end_byte),
                )
            } else {
                rename_range(db, m, pos) is None
            }
        }),
{
}

/// Rename the user symbol under the cursor (refuses builtins).
pub fn rename(
    db: &Builtins,
    doc: &Document,
    pos: Position,
    new_name: &str,
    uri: &str,
) -> (r: Option<WorkspaceEdit>)
    requires
        doc.wf(),
    ensures
        opt_view(r) == rename_of(*db, doc@, pos, new_name@, uri@),
{
    let byte: usize = doc.offset_at(pos.line, pos.character);
    let name = match identifier_at(doc, byte) {
        Some((name, _start, _end)) => name,
        None => {
            return None;
        },
    };
    if is_builtin(db, name.as_str()) {
        return None;
    }
    let spans = symbol_references(doc, name.as_str());
    let ghost refs = all_refs(doc@, name@);
    let ghost all = refs.map_values(|span: (int, int)| edit_for(doc@, new_name@, span));
    let mut edits: Vec<TextEdit> = Vec::new();
    let mut k: usize = 0;
    proof {
        lemma_views_empty::<TextEdit>();
        assert(all.take(0) =~= Seq::empty());
        assert(span_views(spans@).len() == spans@.len());
    }
    while k < spans.len()
        invariant
            doc.wf(),
            k <= spans@.len(),
            span_views(spans@) == refs,
            all == refs.map_values(|span: (int, int)| edit_for(doc@, new_name@, span)),
            all.len() == spans@.len(),
            views(edits@) == all.take(k as int),
        decreases spans@.len() - k,
    {
        let span = spans[k];
        let one = TextEdit {
            range: byte_range(doc, span.0, span.1),
            new_text: new_name.to_owned(),
        };
        proof {
            assert(refs[k as int] == (span.0 as int, span.1 as int));
            lemma_views_push(edits@, one);
            assert(all[k as int] == one@);
            assert(all.take(k as int).push(one@) =~= all.take(k + 1));
        }
        edits.push(one);
        k = k + 1;
    }
    proof {
        assert(all.take(all.len() as int) =~= all);
    }
    if spans.len() == 0 {
        return None;
    }
    Some(WorkspaceEdit { uri: uri.to_owned(), edits })
}

/// The range that a rename at a position would start from.
pub open spec fn rename_range(db: Builtins, m: Model, pos: Position) -> Option<Range> {
    match identifier_of(m, byte_of(m, pos)) {
        Some((name, start, end)) if !db.has(name) => Some(range_of(m.text, start, end)),
        _ => None,
    }
}

/// prepare-rename: allow only on user symbols (not builtins).
pub fn prepare_rename(db: &Builtins, doc: &Document, pos: Position) -> (r: Option<Range>)
    requires
        doc.wf(),
    ensures
        r == rename_range(*db, doc@, pos),
{
    let byte: usize = doc.offset_at(pos.line, pos.character);
    match identifier_at(doc, byte) {
        Some((name, start, end)) => {
            if is_builtin(db, name.as_str()) {
                None
            } else {
                Some(byte_range(doc, start, end))
            }
        },
        None => None,
    }
}

}
