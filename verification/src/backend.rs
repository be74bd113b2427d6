//! The language server's own logic: what it announces, how it applies changes,
//! its cache of resolved imports, and its search over open documents.

use tree_sitter::Language;
use vstd::prelude::*;
use vstd::string::*;

use crate::document::{after_edit, lemma_splice_len, parsed_model, spliced, Document};
use crate::features::completion::{pair_views, resolve_pairs, resolved_pairs};
use crate::features::outline::{document_outline, document_symbols};
use crate::features::tokens::{legend_modifiers, legend_types, semantic_token_legend};
use crate::imports::{
    import_table, imports_of, source_wf, EntryFacts, ImportResolution, LibrarySource,
    ResolutionFacts,
};
use crate::lsp::{
    law_range_round_trip, range_bytes, range_of, Location, LocationFacts, OutlineFacts, Range,
    SemanticTokensLegend, SymbolInformation, SymbolInformationFacts,
};
use crate::sorting::{
    insert_after, is_order, is_strict, law_sort_is_canonical, law_sort_orders, lemma_insert_at,
    stable_sort,
};
use crate::strings::{
    at_char, byte_len, contains_text, law_contained_text, lemma_text_le_total, lemma_text_le_trans,
    lemma_views_empty, lemma_views_push, str_contains, str_eq, str_le, str_len, text_le, views,
};
use crate::syntax::Model;

verus! {

// ---------------------------------------------------------------------------
// Capabilities
// ---------------------------------------------------------------------------

/// What the server announces to a client.
#[derive(Debug, Clone, PartialEq, Eq)]
pub struct Capabilities {
    /// Documents are kept up to date by edits, not by whole texts.
    pub incremental_sync: bool,
    pub completion_triggers: Vec<&'static str>,
    pub hover: bool,
    pub signature_triggers: Vec<&'static str>,
    pub definition: bool,
    pub references: bool,
    pub document_symbols: bool,
    pub workspace_symbols: bool,
    /// Renaming, with a check before it.
    pub rename_with_prepare: bool,
    pub folding_ranges: bool,
    pub inlay_hints: bool,
    pub formatting: bool,
    pub code_actions: bool,
    /// Semantic tokens of whole documents.
    pub semantic_tokens_full: bool,
    pub legend: SemanticTokensLegend,
}

/// What the server announces: all features, completion after a dot, signature
/// help after a bracket or a comma.
pub fn capabilities() -> (r: Capabilities)
    ensures
        r.incremental_sync && r.hover && r.definition && r.references && r.document_symbols
            && r.workspace_symbols && r.rename_with_prepare && r.folding_ranges && r.inlay_hints
            && r.formatting && r.code_actions && r.semantic_tokens_full,
        r.completion_triggers@.map_values(|t: &'static str| t@) == seq!["."@],
        r.signature_triggers@.map_values(|t: &'static str| t@) == seq!["("@, ","@],
        r.legend.token_types@.map_values(|t: &'static str| t@) == legend_types(),
        r.legend.token_modifiers@.map_values(|t: &'static str| t@) == legend_modifiers(),
{
    let completion_triggers: Vec<&'static str> = vec!["."];
    let signature_triggers: Vec<&'static str> = vec!["(", ","];
    proof {
        assert(completion_triggers@.map_values(|t: &'static str| t@) =~= seq!["."@]);
        assert(signature_triggers@.map_values(|t: &'static str| t@) =~= seq!["("@, ","@]);
    }
    Capabilities {
        incremental_sync: true,
        completion_triggers,
        hover: true,
        signature_triggers,
        definition: true,
        references: true,
        document_symbols: true,
        workspace_symbols: true,
        rename_with_prepare: true,
        folding_ranges: true,
        inlay_hints: true,
        formatting: true,
        code_actions: true,
        semantic_tokens_full: true,
        legend: semantic_token_legend(),
    }
}

// ---------------------------------------------------------------------------
// Changes
// ---------------------------------------------------------------------------

/// A change to an open document: a range gets a new text, or, without a range,
/// the whole document does.
#[derive(Debug, Clone, PartialEq, Eq)]
pub struct ContentChange {
    pub range: Option<Range>,
    pub text: String,
}

/// The change can be applied: its range does not run backwards, and the text that
/// an edit leads to is not too long.
pub open spec fn applicable(text: Seq<char>, change: ContentChange) -> bool {
    change.range matches Some(range) ==> {
        let (start, end) = range_bytes(text, range);
        start <= end && byte_len(spliced(text, start, end, change.text@)) <= u32::MAX
    }
}

/// The change can be applied.
pub fn can_apply(doc: &Document, change: &ContentChange) -> (r: bool)
    requires
        doc.wf(),
    ensures
        r == applicable(doc@.text, *change),
{
    match change.range {
        Some(range) => {
            let start: usize = doc.offset_at(range.start.line, range.start.character);
            let end: usize = doc.offset_at(range.end.line, range.end.character);
            if start > end {
                return false;
            }
            let len: usize = str_len(doc.text());
            let more: usize = str_len(change.text.as_str());
            proof {
                lemma_splice_len(doc@.text, start as int, end as int, change.text@);
            }
            more <= u32::MAX as usize && len - (end - start) <= u32::MAX as usize - more
        },
        None => true,
    }
}

/// The document after the change. An edit within the document leaves its tree to
/// the parser, given the old one; a whole new text is parsed afresh, with the
/// grammar `language`. `None` where there is no tree for the new text.
pub open spec fn changed(language: Language, doc: Model, change: ContentChange) -> Option<Model> {
    match change.range {
        Some(range) => {
            let (start, end) = range_bytes(doc.text, range);
            after_edit(doc, start, end, change.text@)
        },
        None => parsed_model(language, change.text@),
    }
}

/// A change whose range is that of the bytes `start..end` replaces those bytes.
pub proof fn law_change_replaces_its_range(
    language: Language,
    doc: Model,
    change: ContentChange,
    start: int,
    end: int,
)
    requires
        doc.wf(),
        at_char(doc.text, start),
        at_char(doc.text, end),
        change.range == Some(range_of(doc.text, start, end)),
    ensures
        changed(language, doc, change) matches Some(next) ==> next.text == spliced(
            doc.text,
            start,
            end,
            change.text@,
        ),
{
    law_range_round_trip(doc.text, start, end);
}

/// Apply one change to a document. The range of an edit is converted against the
/// document as it is now. Returns `false` where the document was kept, since there
/// is no tree for the new text.
pub fn apply_change(doc: &mut Document, language: &Language, change: &ContentChange) -> (r: bool)
    requires
        old(doc).wf(),
        applicable(old(doc)@.text, *change),
    ensures
        final(doc).wf(),
        match changed(*language, old(doc)@, *change) {
            Some(next) => r && final(doc)@ == next,
            None => !r && final(doc)@ == old(doc)@,
        },
{
    match change.range {
        Some(range) => {
            let start: usize = doc.offset_at(range.start.line, range.start.character);
            let end: usize = doc.offset_at(range.end.line, range.end.character);
            doc.apply_edit(start, end, change.text.as_str())
        },
        None => match Document::parse(language, change.text.as_str()) {
            Some(fresh) => {
                *doc = fresh;
                true
            },
            None => false,
        },
    }
}

/// The document after the first `k` changes, each applied to what those before it
/// left. A change without a tree for its text leaves the document as it is.
pub open spec fn changes_upto(
    language: Language,
    doc: Model,
    changes: Seq<ContentChange>,
    k: int,
) -> Model
    decreases k,
{
    if k <= 0 {
        doc
    } else {
        let before = changes_upto(language, doc, changes, k - 1);
        match changed(language, before, changes[k - 1]) {
            Some(next) => next,
            None => before,
        }
    }
}

/// The first change, from `k` on, that cannot be applied to what the changes
/// before it left, or the number of changes.
pub open spec fn first_refused(
    language: Language,
    doc: Model,
    changes: Seq<ContentChange>,
    k: int,
) -> int
    decreases changes.len() - k,
{
    if k >= changes.len() || !applicable(
        changes_upto(language, doc, changes, k).text,
        changes[k],
    ) {
        k
    } else {
        first_refused(language, doc, changes, k + 1)
    }
}

/// A change without a range replaces the whole document by its own text, parsed afresh.
pub proof fn law_whole_texts_replace_the_document(
    language: Language,
    doc: Model,
    change: ContentChange,
)
    requires
        change.range is None,
    ensures
        changed(language, doc, change) == parsed_model(language, change.text@),
        changed(language, doc, change) matches Some(next) ==> next.text == change.text@,
        applicable(doc.text, change),
{
}

/// A change is refused exactly where its range runs backwards or the text would be too
/// long.
pub proof fn law_backward_ranges_are_refused(
    text: Seq<char>,
    change: ContentChange,
    start: int,
    end: int,
)
    requires
        byte_len(text) <= u32::MAX,
        at_char(text, start),
        at_char(text, end),
        change.range == Some(range_of(text, start, end)),
    ensures
        applicable(text, change) <==> start <= end && byte_len(
            spliced(text, start, end, change.text@),
        ) <= u32::MAX,
{
    law_range_round_trip(text, start, end);
}

/// The changes before the first that is refused could all be applied, each to what those
/// before it left, and that one could not.
pub proof fn law_changes_stop_at_the_first_refused(
    language: Language,
    doc: Model,
    changes: Seq<ContentChange>,
    k: int,
    i: int,
)
    requires
        0 <= k <= changes.len(),
    ensures
        ({
            let n = first_refused(language, doc, changes, k);
            &&& k <= n <= changes.len()
            &&& k <= i < n ==> applicable(changes_upto(language, doc, changes, i).text, changes[i])
            &&& n < changes.len() ==> !applicable(
                changes_upto(language, doc, changes, n).text,
                changes[n],
            )
        }),
    decreases changes.len() - k,
{
    if k < changes.len() && applicable(changes_upto(language, doc, changes, k).text, changes[k]) {
        law_changes_stop_at_the_first_refused(language, doc, changes, k + 1, i);
    }
}

/// Each change goes to what those before it left; one without a tree for its text leaves
/// the document as it is.
pub proof fn law_changes_go_one_by_one(
    language: Language,
    doc: Model,
    changes: Seq<ContentChange>,
    k: int,
)
    requires
        0 <= k < changes.len(),
    ensures
        changes_upto(language, doc, changes, 0) == doc,
        ({
            let before = changes_upto(language, doc, changes, k);
            let after = changes_upto(language, doc, changes, k + 1);
            match changed(language, before, changes[k]) {
                Some(next) => after == next,
                None => after == before,
            }
        }),
{
}

/// Apply the changes of one notification, in the order of the list, each to the
/// document that those before it left. Stops before the first change that cannot
/// be applied; returns `true` where there is none.
pub fn apply_changes(doc: &mut Document, language: &Language, changes: &Vec<ContentChange>) -> (r:
    bool)
    requires
        old(doc).wf(),
    ensures
        final(doc).wf(),
        ({
            let n = first_refused(*language, old(doc)@, changes@, 0);
            &&& final(doc)@ == changes_upto(*language, old(doc)@, changes@, n)
            &&& r == (n == changes@.len())
        }),
{
    let ghost start = doc@;
    let mut k: usize = 0;
    while k < changes.len()
        invariant
            doc.wf(),
            k <= changes@.len(),
            start == old(doc)@,
            doc@ == changes_upto(*language, start, changes@, k as int),
            first_refused(*language, start, changes@, 0) == first_refused(
                *language,
                start,
                changes@,
                k as int,
            ),
        decreases changes@.len() - k,
    {
        if !can_apply(doc, &changes[k]) {
            return false;
        }
        apply_change(doc, language, &changes[k]);
        k = k + 1;
    }
    true
}

/// One list of changes after another leads to what both lead to as one list.
pub proof fn law_changes_in_parts(
    language: Language,
    doc: Model,
    first: Seq<ContentChange>,
    second: Seq<ContentChange>,
    k: int,
)
    requires
        0 <= k <= second.len(),
    ensures
        changes_upto(language, doc, first + second, first.len() + k) == changes_upto(
            language,
            changes_upto(language, doc, first, first.len() as int),
            second,
            k,
        ),
    decreases k,
{
    if k > 0 {
        law_changes_in_parts(language, doc, first, second, k - 1);
        assert((first + second)[first.len() + k - 1] == second[k - 1]);
    } else {
        lemma_changes_prefix(language, doc, first, second, first.len() as int);
    }
}

/// Later changes do not bear on what the earlier ones led to.
proof fn lemma_changes_prefix(
    language: Language,
    doc: Model,
    first: Seq<ContentChange>,
    second: Seq<ContentChange>,
    k: int,
)
    requires
        0 <= k <= first.len(),
    ensures
        changes_upto(language, doc, first + second, k) == changes_upto(language, doc, first, k),
    decreases k,
{
    if k > 0 {
        lemma_changes_prefix(language, doc, first, second, k - 1);
        assert((first + second)[k - 1] == first[k - 1]);
    }
}

// ---------------------------------------------------------------------------
// The import cache
// ---------------------------------------------------------------------------

/// When a file was last modified.
#[derive(Debug, Clone, Copy, PartialEq, Eq, Structural)]
pub struct Modified {
    pub seconds: i64,
    pub nanos: u32,
}

/// One library that a document's imports name: the namespace it is imported under,
/// its path, and when it was last modified; a missing file has no such time.
#[derive(Debug, Clone, PartialEq, Eq)]
pub struct KeyEntry {
    pub namespace: String,
    pub path: String,
    pub modified: Option<Modified>,
}

pub struct KeyFacts {
    pub namespace: Seq<char>,
    pub path: Seq<char>,
    pub modified: Option<Modified>,
}

impl View for KeyEntry {
    type V = KeyFacts;

    open spec fn view(&self) -> KeyFacts {
        KeyFacts { namespace: self.namespace@, path: self.path@, modified: self.modified }
    }
}

pub open spec fn modified_le(a: Option<Modified>, b: Option<Modified>) -> bool {
    match (a, b) {
        (None, _) => true,
        (Some(_), None) => false,
        (Some(x), Some(y)) => x.seconds < y.seconds || (x.seconds == y.seconds && x.nanos
            <= y.nanos),
    }
}

/// Keys come by path, then by time, then by namespace; a missing file comes first.
pub open spec fn key_order() -> spec_fn(KeyFacts, KeyFacts) -> bool {
    |a: KeyFacts, b: KeyFacts|
        if a.path != b.path {
            text_le(a.path, b.path)
        } else if a.modified != b.modified {
            modified_le(a.modified, b.modified)
        } else {
            text_le(a.namespace, b.namespace)
        }
}

/// Keys are always in one order, whatever the order of the imports.
pub proof fn law_key_order()
    ensures
        is_order(key_order()),
        is_strict(key_order()),
{
    let le = key_order();
    assert forall|a: KeyFacts, b: KeyFacts| #[trigger] le(a, b) || le(b, a) by {
        lemma_text_le_total(a.path, b.path);
        lemma_text_le_total(a.namespace, b.namespace);
    }
    assert forall|a: KeyFacts, b: KeyFacts, c: KeyFacts| #[trigger] le(a, b) && #[trigger] le(
        b,
        c,
    ) implies le(a, c) by {
        if a.path != b.path && b.path != c.path {
            lemma_text_le_trans(a.path, b.path, c.path);
            if a.path == c.path {
                lemma_text_le_total(a.path, b.path);
            }
        } else if a.path == b.path && b.path == c.path && a.modified == b.modified && b.modified
            == c.modified {
            lemma_text_le_trans(a.namespace, b.namespace, c.namespace);
        }
    }
    assert forall|a: KeyFacts, b: KeyFacts| #[trigger] le(a, b) && le(b, a) implies a == b by {
        lemma_text_le_total(a.path, b.path);
        lemma_text_le_total(a.namespace, b.namespace);
    }
}

/// Two sets of libraries have the same key exactly where they are the same
/// libraries under the same namespaces with the same times, whatever the order of
/// the imports. A library that is renamed, edited, appears or disappears changes
/// the key.
pub proof fn law_key_tells_libraries_apart(a: Seq<KeyFacts>, b: Seq<KeyFacts>)
    ensures
        stable_sort(a, key_order()) == stable_sort(b, key_order()) <==> a.to_multiset()
            == b.to_multiset(),
{
    law_key_order();
    law_sort_orders(a, key_order());
    law_sort_orders(b, key_order());
    if a.to_multiset() == b.to_multiset() {
        law_sort_is_canonical(a, b, key_order());
    }
}

/// A key lists its libraries by path, those of one path by time, a missing one first.
pub proof fn law_keys_come_by_path(libraries: Seq<KeyFacts>, i: int, j: int)
    requires
        0 <= i < j < libraries.len(),
    ensures
        ({
            let key = stable_sort(libraries, key_order());
            &&& key.len() == libraries.len()
            &&& text_le(key[i].path, key[j].path)
            &&& key[i].path == key[j].path ==> match (key[i].modified, key[j].modified) {
                (None, _) => true,
                (Some(_), None) => false,
                (Some(a), Some(b)) => a.seconds < b.seconds || (a.seconds == b.seconds && a.nanos
                    <= b.nanos),
            }
            &&& key[i].path == key[j].path && key[i].modified == key[j].modified ==> text_le(
                key[i].namespace,
                key[j].namespace,
            )
        }),
{
    law_key_order();
    law_sort_orders(libraries, key_order());
    let key = stable_sort(libraries, key_order());
    assert(key_order()(key[i], key[j]));
    lemma_text_le_total(key[i].path, key[i].path);
}

/// The library that an import names by a `/// @source` directive: the namespace it
/// is imported under, and the path of the directive.
#[derive(Debug, Clone, PartialEq, Eq)]
pub struct ImportSource {
    pub namespace: String,
    pub path: String,
}

pub struct SourceFacts {
    pub namespace: Seq<char>,
    pub path: Seq<char>,
}

impl View for ImportSource {
    type V = SourceFacts;

    open spec fn view(&self) -> SourceFacts {
        SourceFacts { namespace: self.namespace@, path: self.path@ }
    }
}

/// The sources that the first `k` imports name.
pub open spec fn sources_upto(entries: Seq<EntryFacts>, k: int) -> Seq<SourceFacts>
    decreases k,
{
    if k <= 0 {
        Seq::empty()
    } else {
        match entries[k - 1].source {
            Some(path) => sources_upto(entries, k - 1).push(
                SourceFacts { namespace: entries[k - 1].namespace(), path },
            ),
            None => sources_upto(entries, k - 1),
        }
    }
}

proof fn lemma_source_found(entries: Seq<EntryFacts>, k: int, i: int)
    requires
        0 <= i < k <= entries.len(),
        entries[i].source is Some,
    ensures
        sources_upto(entries, k).contains(
            SourceFacts { namespace: entries[i].namespace(), path: entries[i].source->0 },
        ),
    decreases k,
{
    let before = sources_upto(entries, k - 1);
    let now = sources_upto(entries, k);
    let one = SourceFacts { namespace: entries[i].namespace(), path: entries[i].source->0 };
    if i < k - 1 {
        lemma_source_found(entries, k - 1, i);
        let x = choose|x: int| 0 <= x < before.len() && before[x] == one;
        assert(now[x] == one);
    } else {
        assert(now[now.len() - 1] == one);
    }
}

/// Every import with a directive contributes its namespace and path, and nothing else
/// does.
pub proof fn law_directives_are_the_sources(entries: Seq<EntryFacts>, i: int, x: int)
    ensures
        0 <= i < entries.len() && entries[i].source is Some ==> sources_upto(
            entries,
            entries.len() as int,
        ).contains(
            SourceFacts {
                namespace: match entries[i].alias {
                    Some(alias) => alias,
                    None => entries[i].lib,
                },
                path: entries[i].source->0,
            },
        ),
        0 <= x < sources_upto(entries, entries.len() as int).len() ==> exists|j: int|
            0 <= j < entries.len() && (#[trigger] entries[j]).source == Some(
                sources_upto(entries, entries.len() as int)[x].path,
            ) && entries[j].namespace() == sources_upto(entries, entries.len() as int)[x].namespace,
{
    let n = entries.len() as int;
    if 0 <= i < n && entries[i].source is Some {
        lemma_source_found(entries, n, i);
    }
    if 0 <= x < sources_upto(entries, n).len() {
        lemma_source_source(entries, n, x);
    }
}

proof fn lemma_source_source(entries: Seq<EntryFacts>, k: int, x: int)
    requires
        0 <= k <= entries.len(),
        0 <= x < sources_upto(entries, k).len(),
    ensures
        exists|j: int|
            0 <= j < k && (#[trigger] entries[j]).source == Some(sources_upto(entries, k)[x].path)
                && entries[j].namespace() == sources_upto(entries, k)[x].namespace,
    decreases k,
{
    let before = sources_upto(entries, k - 1);
    if x < before.len() {
        lemma_source_source(entries, k - 1, x);
        assert(sources_upto(entries, k)[x] == before[x]);
    } else {
        assert(entries[k - 1].source == Some(sources_upto(entries, k)[x].path));
    }
}

/// The libraries that the `/// @source` directives of a document's imports name.
/// An import without one contributes nothing.
pub fn import_sources(doc: &Document) -> (r: Vec<ImportSource>)
    requires
        doc.wf(),
    ensures
        views(r@) == sources_upto(imports_of(doc@), imports_of(doc@).len() as int),
{
    let table = import_table(doc);
    let entries = table.entries();
    let ghost all = imports_of(doc@);
    let mut out: Vec<ImportSource> = Vec::new();
    let mut k: usize = 0;
    proof {
        lemma_views_empty::<ImportSource>();
    }
    while k < entries.len()
        invariant
            k <= entries@.len(),
            views(entries@) == all,
            views(out@) == sources_upto(all, k as int),
        decreases entries@.len() - k,
    {
        proof {
            assert(all[k as int] == entries@[k as int]@);
        }
        if let Some(path) = &entries[k].source {
            let one = ImportSource {
                namespace: entries[k].effective_namespace().to_owned(),
                path: path.clone(),
            };
            proof {
                lemma_views_push(out@, one);
            }
            out.push(one);
        }
        k = k + 1;
    }
    out
}

/// Build the cache key for a document's imports: each library's namespace, path
/// and time of modification, sorted. A missing or unreadable file has no time.
pub fn import_cache_key(libraries: Vec<KeyEntry>) -> (r: Vec<KeyEntry>)
    ensures
        views(r@) == stable_sort(views(libraries@), key_order()),
{
    let ghost all = views(libraries@);
    let mut libraries = libraries;
    let mut out: Vec<KeyEntry> = Vec::new();
    proof {
        lemma_views_empty::<KeyEntry>();
        assert(all.take(0) =~= Seq::empty());
        assert(all.skip(0) =~= all);
    }
    let count: usize = libraries.len();
    let mut k: usize = 0;
    while k < count
        invariant
            k <= count,
            count == all.len(),
            views(libraries@) == all.skip(k as int),
            views(out@) == stable_sort(all.take(k as int), key_order()),
        decreases count - k,
    {
        proof {
            assert(all.skip(k as int)[0] == all[k as int]);
            assert(views(libraries@).len() == libraries@.len());
            assert(views(libraries@)[0] == libraries@[0]@);
            assert(views(libraries@.remove(0)) =~= views(libraries@).skip(1));
            assert(all.take(k + 1).drop_last() =~= all.take(k as int));
            assert(views(libraries@.remove(0)) =~= all.skip(k + 1));
        }
        let entry = libraries.remove(0);
        insert_key(&mut out, entry);
        k = k + 1;
    }
    proof {
        assert(all.take(all.len() as int) =~= all);
    }
    out
}

fn same_time(a: Option<Modified>, b: Option<Modified>) -> (r: bool)
    ensures
        r == (a == b),
{
    match (a, b) {
        (None, None) => true,
        (Some(x), Some(y)) => x == y,
        _ => false,
    }
}

fn time_le(a: Option<Modified>, b: Option<Modified>) -> (r: bool)
    ensures
        r == modified_le(a, b),
{
    match (a, b) {
        (None, _) => true,
        (Some(_), None) => false,
        (Some(x), Some(y)) => x.seconds < y.seconds || (x.seconds == y.seconds && x.nanos
            <= y.nanos),
    }
}

fn key_le(a: &KeyEntry, b: &KeyEntry) -> (r: bool)
    ensures
        r == key_order()(a@, b@),
{
    if !str_eq(a.path.as_str(), b.path.as_str()) {
        str_le(a.path.as_str(), b.path.as_str())
    } else if !same_time(a.modified, b.modified) {
        time_le(a.modified, b.modified)
    } else {
        str_le(a.namespace.as_str(), b.namespace.as_str())
    }
}

fn insert_key(out: &mut Vec<KeyEntry>, item: KeyEntry)
    ensures
        views(final(out)@) == insert_after(views(old(out)@), item@, key_order()),
{
    let ghost s = views(out@);
    let mut j: usize = out.len();
    while j > 0 && !key_le(&out[j - 1], &item)
        invariant
            j <= out@.len(),
            s == views(out@),
            forall|i: int| j <= i < s.len() ==> !#[trigger] key_order()(s[i], item@),
        decreases j,
    {
        proof {
            assert(s[j - 1] == out@[j - 1]@);
        }
        j = j - 1;
    }
    proof {
        if j > 0 {
            assert(s[j - 1] == out@[j - 1]@);
        }
        lemma_insert_at(s, item@, key_order(), j as int);
        assert(views(out@.insert(j as int, item)) =~= s.insert(j as int, item@));
    }
    out.insert(j, item);
}

fn same_key(a: &Vec<KeyEntry>, b: &Vec<KeyEntry>) -> (r: bool)
    ensures
        r == (views(a@) == views(b@)),
{
    let ghost x = views(a@);
    let ghost y = views(b@);
    if a.len() != b.len() {
        proof {
            assert(x.len() != y.len());
        }
        return false;
    }
    let mut k: usize = 0;
    while k < a.len()
        invariant
            k <= a@.len(),
            a@.len() == b@.len(),
            x == views(a@),
            y == views(b@),
            forall|i: int| 0 <= i < k ==> #[trigger] x[i] == y[i],
        decreases a@.len() - k,
    {
        proof {
            assert(x[k as int] == a@[k as int]@);
            assert(y[k as int] == b@[k as int]@);
        }
        if !str_eq(a[k].namespace.as_str(), b[k].namespace.as_str()) || !str_eq(
            a[k].path.as_str(),
            b[k].path.as_str(),
        ) || !same_time(a[k].modified, b[k].modified) {
            return false;
        }
        k = k + 1;
    }
    proof {
        assert(x =~= y);
    }
    true
}

/// The resolved imports of one document, and the key they belong to.
pub struct CachedImports {
    pub key: Vec<KeyEntry>,
    pub resolved: Vec<(String, ImportResolution)>,
}

pub struct CachedFacts {
    pub key: Seq<KeyFacts>,
    pub resolved: Seq<(Seq<char>, ResolutionFacts)>,
}

impl View for CachedImports {
    type V = CachedFacts;

    open spec fn view(&self) -> CachedFacts {
        CachedFacts { key: views(self.key@), resolved: pair_views(self.resolved@) }
    }
}

/// What is held for `uri`; what came later counts.
pub open spec fn held(entries: Seq<(Seq<char>, CachedFacts)>, uri: Seq<char>) -> Option<CachedFacts>
    decreases entries.len(),
{
    if entries.len() == 0 {
        None
    } else if entries.last().0 == uri {
        Some(entries.last().1)
    } else {
        held(entries.drop_last(), uri)
    }
}

/// Resolved imports per document, served as long as no library has changed.
///
/// A stale library edit changes its time of modification, and so the key; a
/// library that appears, disappears or gets another namespace does too.
pub struct ImportCache {
    entries: Vec<(String, CachedImports)>,
}

impl ImportCache {
    spec fn pairs(&self) -> Seq<(Seq<char>, CachedFacts)> {
        self.entries@.map_values(|e: (String, CachedImports)| (e.0@, e.1@))
    }

    /// What is held for `uri`.
    pub closed spec fn get(&self, uri: Seq<char>) -> Option<CachedFacts> {
        held(self.pairs(), uri)
    }

    /// What a request for `uri` under `key` is served: what is held, where the
    /// key is the same.
    pub open spec fn served(&self, uri: Seq<char>, key: Seq<KeyFacts>) -> Option<
        Seq<(Seq<char>, ResolutionFacts)>,
    > {
        match self.get(uri) {
            Some(cached) if cached.key == key => Some(cached.resolved),
            _ => None,
        }
    }

    /// An empty cache.
    pub fn new() -> (r: Self)
        ensures
            forall|uri: Seq<char>| #[trigger] r.get(uri) is None,
    {
        let r = ImportCache { entries: Vec::new() };
        proof {
            assert(r.pairs() =~= Seq::empty());
        }
        r
    }

    /// The resolved imports of `uri` under `key`, if they are held.
    pub fn lookup(&self, uri: &str, key: &Vec<KeyEntry>) -> (r: Option<
        &Vec<(String, ImportResolution)>,
    >)
        ensures
            match self.served(uri@, views(key@)) {
                Some(resolved) => r matches Some(v) && pair_views(v@) == resolved,
                None => r is None,
            },
    {
        let ghost all = self.pairs();
        let mut k: usize = self.entries.len();
        proof {
            assert(all.take(k as int) =~= all);
        }
        while k > 0
            invariant
                k <= self.entries@.len(),
                all == self.pairs(),
                self.get(uri@) == held(all.take(k as int), uri@),
            decreases k,
        {
            proof {
                let e = self.entries@[k - 1];
                assert(all.take(k as int).last() == (e.0@, e.1@));
                assert(all.take(k as int).drop_last() =~= all.take(k - 1));
            }
            if str_eq(self.entries[k - 1].0.as_str(), uri) {
                if same_key(&self.entries[k - 1].1.key, key) {
                    return Some(&self.entries[k - 1].1.resolved);
                } else {
                    return None;
                }
            }
            k = k - 1;
        }
        None
    }

    /// Forget what is held for `uri`, so that a closed-then-reopened document is
    /// resolved from scratch.
    pub fn remove(&mut self, uri: &str)
        ensures
            final(self).get(uri@) is None,
            forall|other: Seq<char>|
                other != uri@ ==> #[trigger] final(self).get(other) == old(self).get(other),
    {
        let mut k: usize = 0;
        while k < self.entries.len()
            invariant
                k <= self.entries@.len(),
                forall|i: int| 0 <= i < k ==> (#[trigger] self.pairs()[i]).0 != uri@,
                forall|other: Seq<char>|
                    other != uri@ ==> #[trigger] held(self.pairs(), other) == held(
                        old(self).pairs(),
                        other,
                    ),
            decreases self.entries@.len() - k,
        {
            let ghost before = self.pairs();
            proof {
                assert(before[k as int].0 == self.entries@[k as int].0@);
            }
            if str_eq(self.entries[k].0.as_str(), uri) {
                self.entries.remove(k);
                proof {
                    assert(self.pairs() =~= before.remove(k as int));
                    assert forall|other: Seq<char>| other != uri@ implies #[trigger] held(
                        self.pairs(),
                        other,
                    ) == held(old(self).pairs(), other) by {
                        lemma_held_remove(before, k as int, other);
                        assert(held(before, other) == held(old(self).pairs(), other));
                    }
                    assert forall|i: int| 0 <= i < k implies (#[trigger] self.pairs()[i]).0
                        != uri@ by {
                        assert(self.pairs()[i] == before[i]);
                    }
                }
            } else {
                k = k + 1;
            }
        }
        proof {
            lemma_not_held(self.pairs(), uri@);
        }
    }

    /// Hold the resolved imports of `uri` under `key`, in place of what was held.
    pub fn store(&mut self, uri: &str, key: Vec<KeyEntry>, resolved: Vec<
        (String, ImportResolution),
    >)
        ensures
            final(self).get(uri@) == Some(
                CachedFacts { key: views(key@), resolved: pair_views(resolved@) },
            ),
            forall|other: Seq<char>|
                other != uri@ ==> #[trigger] final(self).get(other) == old(self).get(other),
    {
        self.remove(uri);
        let ghost kept = *self;
        let ghost before = self.pairs();
        let ghost one = (uri@, CachedFacts { key: views(key@), resolved: pair_views(resolved@) });
        self.entries.push((uri.to_owned(), CachedImports { key, resolved }));
        proof {
            assert(self.pairs() =~= before.push(one));
            assert(before.push(one).drop_last() =~= before);
            assert forall|other: Seq<char>| other != uri@ implies #[trigger] self.get(other)
                == old(self).get(other) by {
                assert(kept.get(other) == old(self).get(other));
            }
        }
    }
}

/// What is held for a document is served under its own key and no other.
pub proof fn law_served_under_its_key(cache: ImportCache, uri: Seq<char>, key: Seq<KeyFacts>)
    requires
        cache.get(uri) is Some,
    ensures
        cache.served(uri, cache.get(uri)->0.key) == Some(cache.get(uri)->0.resolved),
        key != cache.get(uri)->0.key ==> cache.served(uri, key) is None,
{
}

/// As long as a document's imports go by the same names and sources, and nothing
/// else was found of the libraries, what is served is what resolving again would
/// give.
pub proof fn law_served_is_fresh(
    cache: ImportCache,
    uri: Seq<char>,
    key: Seq<KeyFacts>,
    before: Model,
    now: Model,
    found: Seq<LibrarySource>,
)
    requires
        cache.get(uri) == Some(CachedFacts { key, resolved: resolved_pairs(before, found) }),
        imports_of(before).len() == imports_of(now).len(),
        forall|i: int|
            #![trigger imports_of(now)[i]]
            0 <= i < imports_of(now).len() ==> imports_of(before)[i].namespace()
                == imports_of(now)[i].namespace() && imports_of(before)[i].source == imports_of(
                now,
            )[i].source,
    ensures
        cache.served(uri, key) == Some(resolved_pairs(now, found)),
{
    assert(resolved_pairs(before, found) =~= resolved_pairs(now, found));
}

proof fn lemma_held_remove(entries: Seq<(Seq<char>, CachedFacts)>, k: int, uri: Seq<char>)
    requires
        0 <= k < entries.len(),
        entries[k].0 != uri,
    ensures
        held(entries.remove(k), uri) == held(entries, uri),
    decreases entries.len(),
{
    if k == entries.len() - 1 {
        assert(entries.remove(k) =~= entries.drop_last());
    } else {
        let init = entries.drop_last();
        lemma_held_remove(init, k, uri);
        assert(entries.remove(k).last() == entries.last());
        assert(entries.remove(k).drop_last() =~= init.remove(k));
    }
}

proof fn lemma_not_held(entries: Seq<(Seq<char>, CachedFacts)>, uri: Seq<char>)
    requires
        forall|i: int| 0 <= i < entries.len() ==> (#[trigger] entries[i]).0 != uri,
    ensures
        held(entries, uri) is None,
    decreases entries.len(),
{
    if entries.len() > 0 {
        assert(entries[entries.len() - 1].0 != uri);
        lemma_not_held(entries.drop_last(), uri);
    }
}

fn clone_pairs(pairs: &Vec<(String, ImportResolution)>) -> (r: Vec<(String, ImportResolution)>)
    ensures
        pair_views(r@) == pair_views(pairs@),
{
    let ghost all = pair_views(pairs@);
    let mut out: Vec<(String, ImportResolution)> = Vec::new();
    let mut k: usize = 0;
    proof {
        assert(all.take(0) =~= Seq::empty());
        assert(pair_views(out@) =~= Seq::empty());
    }
    while k < pairs.len()
        invariant
            k <= pairs@.len(),
            all == pair_views(pairs@),
            pair_views(out@) == all.take(k as int),
        decreases pairs@.len() - k,
    {
        let ghost before = out@;
        out.push((pairs[k].0.clone(), pairs[k].1.clone()));
        proof {
            assert(pair_views(out@) =~= pair_views(before).push(all[k as int]));
            assert(all.take(k as int).push(all[k as int]) =~= all.take(k + 1));
        }
        k = k + 1;
    }
    proof {
        assert(all.take(all.len() as int) =~= all);
    }
    out
}

/// The resolved imports of a document, by namespace: what the cache holds under
/// `key`, or else what resolving `found` gives, which is then held.
pub fn resolve_imports_cached(
    cache: &mut ImportCache,
    uri: &str,
    doc: &Document,
    key: Vec<KeyEntry>,
    found: Vec<LibrarySource>,
) -> (r: Vec<(String, ImportResolution)>)
    requires
        doc.wf(),
        found@.len() == imports_of(doc@).len(),
        forall|i: int| 0 <= i < found@.len() ==> source_wf(#[trigger] found@[i]),
    ensures
        match old(cache).served(uri@, views(key@)) {
            Some(resolved) => pair_views(r@) == resolved && *final(cache) == *old(cache),
            None => {
                &&& pair_views(r@) == resolved_pairs(doc@, found@)
                &&& final(cache).get(uri@) == Some(
                    CachedFacts { key: views(key@), resolved: resolved_pairs(doc@, found@) },
                )
                &&& forall|other: Seq<char>|
                    other != uri@ ==> #[trigger] final(cache).get(other) == old(cache).get(other)
            },
        },
{
    if let Some(resolved) = cache.lookup(uri, &key) {
        return clone_pairs(resolved);
    }
    let pairs = resolve_pairs(doc, found);
    cache.store(uri, key, clone_pairs(&pairs));
    pairs
}

// ---------------------------------------------------------------------------
// Workspace symbols
// ---------------------------------------------------------------------------

/// A text in lower case, as `str::to_lowercase` gives it.
pub uninterp spec fn lowered(text: Seq<char>) -> Seq<char>;

/// `str::to_lowercase`: its result depends on the text alone.
#[verifier::external_body]
fn lowercase(text: &str) -> (r: String)
    ensures
        r@ == lowered(text@),
{
    text.to_lowercase()
}

/// A name matches a query that it contains, and every name matches the empty
/// query; both in lower case.
pub open spec fn name_matches(name: Seq<char>, query: Seq<char>) -> bool {
    query.len() == 0 || contains_text(name, query)
}

/// Whether a name matches a query, both in lower case.
pub fn symbol_matches(lowered_name: &str, lowered_query: &str) -> (r: bool)
    ensures
        r == name_matches(lowered_name@, lowered_query@),
{
    lowered_query.is_empty() || str_contains(lowered_name, lowered_query)
}

pub open spec fn symbol_in(uri: Seq<char>, symbol: OutlineFacts) -> SymbolInformationFacts {
    SymbolInformationFacts {
        name: symbol.name,
        kind: symbol.kind,
        location: LocationFacts { uri, range: symbol.range },
    }
}

/// Of the first `k` symbols of a document those that match a query.
pub open spec fn matches_upto(
    outline: Seq<OutlineFacts>,
    uri: Seq<char>,
    query: Seq<char>,
    k: int,
) -> Seq<SymbolInformationFacts>
    decreases k,
{
    if k <= 0 {
        Seq::empty()
    } else if name_matches(lowered(outline[k - 1].name), lowered(query)) {
        matches_upto(outline, uri, query, k - 1).push(symbol_in(uri, outline[k - 1]))
    } else {
        matches_upto(outline, uri, query, k - 1)
    }
}

proof fn lemma_match_found(
    outline: Seq<OutlineFacts>,
    uri: Seq<char>,
    query: Seq<char>,
    k: int,
    i: int,
)
    requires
        0 <= i < k <= outline.len(),
        name_matches(lowered(outline[i].name), lowered(query)),
    ensures
        matches_upto(outline, uri, query, k).contains(symbol_in(uri, outline[i])),
    decreases k,
{
    let before = matches_upto(outline, uri, query, k - 1);
    let now = matches_upto(outline, uri, query, k);
    let one = symbol_in(uri, outline[i]);
    if i < k - 1 {
        lemma_match_found(outline, uri, query, k - 1, i);
        let x = choose|x: int| 0 <= x < before.len() && before[x] == one;
        assert(now[x] == one);
    } else {
        assert(now[now.len() - 1] == one);
    }
}

proof fn lemma_match_source(
    outline: Seq<OutlineFacts>,
    uri: Seq<char>,
    query: Seq<char>,
    k: int,
    x: int,
)
    requires
        0 <= k <= outline.len(),
        0 <= x < matches_upto(outline, uri, query, k).len(),
    ensures
        exists|i: int|
            0 <= i < k && matches_upto(outline, uri, query, k)[x] == symbol_in(
                uri,
                #[trigger] outline[i],
            ) && name_matches(lowered(outline[i].name), lowered(query)),
    decreases k,
{
    let before = matches_upto(outline, uri, query, k - 1);
    if x < before.len() {
        lemma_match_source(outline, uri, query, k - 1, x);
        assert(matches_upto(outline, uri, query, k)[x] == before[x]);
    } else {
        assert(matches_upto(outline, uri, query, k)[x] == symbol_in(uri, outline[k - 1]));
    }
}

/// A symbol is found where its name, in lower case, has the query, in lower case, in it;
/// an empty query finds every symbol. It is shown with its name, kind and range.
pub proof fn law_matching_symbols_are_found(
    outline: Seq<OutlineFacts>,
    uri: Seq<char>,
    query: Seq<char>,
    i: int,
    before: Seq<char>,
    behind: Seq<char>,
)
    requires
        0 <= i < outline.len(),
        lowered(query).len() == 0 || lowered(outline[i].name) == before + lowered(query) + behind,
    ensures
        matches_upto(outline, uri, query, outline.len() as int).contains(
            SymbolInformationFacts {
                name: outline[i].name,
                kind: outline[i].kind,
                location: LocationFacts { uri, range: outline[i].range },
            },
        ),
{
    law_contained_text(before, lowered(query), behind, lowered(outline[i].name));
    lemma_match_found(outline, uri, query, outline.len() as int, i);
}

/// No other symbol is found.
pub proof fn law_found_symbols_match(
    outline: Seq<OutlineFacts>,
    uri: Seq<char>,
    query: Seq<char>,
    x: int,
)
    requires
        0 <= x < matches_upto(outline, uri, query, outline.len() as int).len(),
    ensures
        exists|i: int|
            0 <= i < outline.len() && matches_upto(outline, uri, query, outline.len() as int)[x]
                == (SymbolInformationFacts {
                name: (#[trigger] outline[i]).name,
                kind: outline[i].kind,
                location: LocationFacts { uri, range: outline[i].range },
            }) && (lowered(query).len() == 0 || exists|a: Seq<char>, b: Seq<char>|
                lowered(outline[i].name) == #[trigger] (a + lowered(query) + b)),
{
    let n = outline.len() as int;
    lemma_match_source(outline, uri, query, n, x);
    let i = choose|i: int|
        0 <= i < n && matches_upto(outline, uri, query, n)[x] == symbol_in(
            uri,
            #[trigger] outline[i],
        ) && name_matches(lowered(outline[i].name), lowered(query));
    law_contained_text(
        Seq::empty(),
        lowered(query),
        Seq::empty(),
        lowered(outline[i].name),
    );
}

/// The symbols of one open document that match a query, whatever the case.
pub fn workspace_symbols(doc: &Document, uri: &str, query: &str) -> (r: Vec<SymbolInformation>)
    requires
        doc.wf(),
    ensures
        views(r@) == matches_upto(
            document_outline(doc@),
            uri@,
            query@,
            document_outline(doc@).len() as int,
        ),
{
    let wanted = lowercase(query);
    let symbols = document_symbols(doc);
    let ghost all = document_outline(doc@);
    let mut out: Vec<SymbolInformation> = Vec::new();
    let mut k: usize = 0;
    proof {
        lemma_views_empty::<SymbolInformation>();
    }
    while k < symbols.len()
        invariant
            k <= symbols@.len(),
            views(symbols@) == all,
            wanted@ == lowered(query@),
            views(out@) == matches_upto(all, uri@, query@, k as int),
        decreases symbols@.len() - k,
    {
        let symbol = &symbols[k];
        proof {
            assert(all[k as int] == symbol@);
        }
        let name = lowercase(symbol.name.as_str());
        if symbol_matches(name.as_str(), wanted.as_str()) {
            let one = SymbolInformation {
                name: symbol.name.clone(),
                kind: symbol.kind,
                location: Location { uri: uri.to_owned(), range: symbol.range },
            };
            proof {
                lemma_views_push(out@, one);
            }
            out.push(one);
        }
        k = k + 1;
    }
    out
}

}
