//! Pine `import` statements, their `/// @source` directives, and the exported
//! declarations of the libraries that the directives lead to.
//!
//! This is a **descriptive** pass only: it records what imports a document
//! declares and which (if any) `/// @source` file each is annotated with, and
//! what the library behind an import exports. It emits no diagnostics. Reading
//! files is left to the caller, which hands in what it found.

use std::path::PathBuf;

use tree_sitter::Language;
use vstd::prelude::*;
use vstd::string::*;

use crate::document::{parsed_model, Document};
use crate::strings::{
    is_space, is_white_space, join, law_join_is_undone_by_split, law_split_is_undone_by_join,
    law_strip_prefix, law_trimming_takes_white_space, lemma_trim_end, lemma_trim_start,
    lemma_views_empty, lemma_views_push, opt_view, slice_bytes, split, str_eq, str_split,
    str_strip_prefix, str_trim_end, str_trim_start, stripped, to_chars, trim_end, trim_start, views,
};
use crate::symbols::{is_nested, is_nested_node, lemma_outside, opens_scope, stands_outside};
use crate::syntax::{
    child_by_field, children, children_of, covers, end_of, field_child, in_text_order, indices,
    law_children_are_complete, law_parent_of_child, lemma_children, lemma_end_below,
    lemma_filter_take, lemma_first_field, lies_below, parent_of, Model,
};

verus! {

// ---------------------------------------------------------------------------
// Import statements
// ---------------------------------------------------------------------------

/// A single parsed `import` statement.
///
/// `alias` is `Option` because the grammar makes `as <alias>` optional. When it
/// is `None`, the effective namespace is the [`lib`](ImportEntry::lib) name; see
/// [`ImportEntry::effective_namespace`].
#[derive(Debug, Clone, PartialEq, Eq)]
pub struct ImportEntry {
    /// Explicit alias from `as <alias>`, if present.
    pub alias: Option<String>,
    /// First path segment (username), e.g. `User` in `User/MyLib/1`.
    pub user: String,
    /// Second path segment (library/export name), e.g. `MyLib`.
    pub lib: String,
    /// Third path segment (version), e.g. `1`.
    pub version: String,
    /// Path from a `/// @source <path>` directive on the immediately-preceding
    /// line, if any. `None` does not imply an error — callers decide.
    pub source: Option<String>,
    /// 0-indexed row of the `import` statement.
    pub line: usize,
    /// Byte range of the `import` node.
    pub start_byte: usize,
    /// Byte range end of the `import` node.
    pub end_byte: usize,
}

/// What an [`ImportEntry`] says.
pub struct EntryFacts {
    pub alias: Option<Seq<char>>,
    pub user: Seq<char>,
    pub lib: Seq<char>,
    pub version: Seq<char>,
    pub source: Option<Seq<char>>,
    pub line: int,
    pub start_byte: int,
    pub end_byte: int,
}

impl EntryFacts {
    /// The explicit alias if there is one, otherwise the library name.
    pub open spec fn namespace(self) -> Seq<char> {
        match self.alias {
            Some(alias) => alias,
            None => self.lib,
        }
    }
}

impl View for ImportEntry {
    type V = EntryFacts;

    open spec fn view(&self) -> EntryFacts {
        EntryFacts {
            alias: opt_view(self.alias),
            user: self.user@,
            lib: self.lib@,
            version: self.version@,
            source: opt_view(self.source),
            line: self.line as int,
            start_byte: self.start_byte as int,
            end_byte: self.end_byte as int,
        }
    }
}

impl ImportEntry {
    /// The namespace this import is referenced by in code: the explicit alias if
    /// present, otherwise the library name.
    pub fn effective_namespace(&self) -> (r: &str)
        ensures
            r@ == self@.namespace(),
    {
        match &self.alias {
            Some(alias) => alias.as_str(),
            None => self.lib.as_str(),
        }
    }
}

/// The first entry from `k` on with the explicit alias `alias`.
pub open spec fn alias_index(entries: Seq<EntryFacts>, alias: Seq<char>, k: int) -> Option<int>
    decreases entries.len() - k,
{
    if k >= entries.len() {
        None
    } else if entries[k].alias == Some(alias) {
        Some(k)
    } else {
        alias_index(entries, alias, k + 1)
    }
}

/// An alias finds the first import that was declared with it, and no import without an
/// alias.
pub proof fn law_alias_finds_the_first(
    entries: Seq<EntryFacts>,
    alias: Seq<char>,
    k: int,
    i: int,
)
    requires
        0 <= k <= i <= entries.len(),
        forall|j: int| k <= j < i ==> (#[trigger] entries[j]).alias != Some(alias),
        i < entries.len() ==> entries[i].alias == Some(alias),
    ensures
        alias_index(entries, alias, k) == if i < entries.len() {
            Some(i)
        } else {
            None
        },
    decreases i - k,
{
    if k < i {
        assert(entries[k].alias != Some(alias));
        law_alias_finds_the_first(entries, alias, k + 1, i);
    }
}

/// All `import` statements in a document, in source order.
#[derive(Debug, Clone)]
pub struct ImportTable {
    entries: Vec<ImportEntry>,
}

impl View for ImportTable {
    type V = Seq<EntryFacts>;

    closed spec fn view(&self) -> Seq<EntryFacts> {
        views(self.entries@)
    }
}

impl Default for ImportTable {
    fn default() -> (r: Self)
        ensures
            r@ == Seq::<EntryFacts>::empty(),
    {
        proof {
            lemma_views_empty::<ImportEntry>();
        }
        Self { entries: Vec::new() }
    }
}

impl ImportTable {
    /// All parsed import entries, in source order.
    pub fn entries(&self) -> (r: &[ImportEntry])
        ensures
            views(r@) == self@,
    {
        self.entries.as_slice()
    }

    /// Look up an import by its **explicit** alias.
    ///
    /// Entries with no `as <alias>` are not matched by this lookup; use
    /// [`ImportEntry::effective_namespace`] at the call site for the aliasless
    /// fallback.
    pub fn by_alias(&self, alias: &str) -> (r: Option<&ImportEntry>)
        ensures
            match alias_index(self@, alias@, 0) {
                Some(i) => r matches Some(entry) && entry@ == self@[i],
                None => r is None,
            },
    {
        let mut k: usize = 0;
        while k < self.entries.len()
            invariant
                k <= self.entries@.len(),
                alias_index(self@, alias@, 0) == alias_index(self@, alias@, k as int),
            decreases self.entries@.len() - k,
        {
            let entry = &self.entries[k];
            proof {
                assert(self@[k as int] == entry@);
            }
            if let Some(own) = &entry.alias {
                if str_eq(own.as_str(), alias) {
                    return Some(entry);
                }
            }
            k = k + 1;
        }
        None
    }

    /// True when the document declares no imports.
    pub fn is_empty(&self) -> (r: bool)
        ensures
            r == (self@.len() == 0),
    {
        self.entries.len() == 0
    }

    /// Number of import entries.
    pub fn len(&self) -> (r: usize)
        ensures
            r == self@.len(),
    {
        self.entries.len()
    }
}

/// The path that a `/// @source <path>` comment names: white space may stand
/// before the comment marker, between it and `@source`, and around the path, at
/// least one character of it before the path.
pub open spec fn directive_path(comment: Seq<char>) -> Option<Seq<char>> {
    match stripped(trim_start(comment), "///"@) {
        Some(after_slashes) => match stripped(trim_start(after_slashes), "@source"@) {
            Some(after) => {
                let path = trim_end(trim_start(after));
                if after.len() > 0 && is_space(after[0]) && path.len() > 0 {
                    Some(path)
                } else {
                    None
                }
            },
            None => None,
        },
        None => None,
    }
}

/// Match `/// @source <path>` against a comment's full text, returning the
/// trimmed path.
///
/// Plain `//` comments and the `//@version=6` annotation are no directives, and
/// neither is `@source` without a path.
pub fn parse_source_directive(comment_text: &str) -> (r: Option<String>)
    ensures
        opt_view(r) == directive_path(comment_text@),
{
    let trimmed = str_trim_start(comment_text);
    let after_slashes = match str_strip_prefix(trimmed.as_str(), "///") {
        Some(rest) => str_trim_start(rest.as_str()),
        None => {
            return None;
        },
    };
    let after_at_source = match str_strip_prefix(after_slashes.as_str(), "@source") {
        Some(rest) => rest,
        None => {
            return None;
        },
    };
    let chars = to_chars(after_at_source.as_str());
    if chars.len() == 0 || !is_white_space(chars[0]) {
        return None;
    }
    let path = str_trim_end(str_trim_start(after_at_source.as_str()).as_str());
    if path.as_str().is_empty() {
        return None;
    }
    Some(path)
}

/// A directive's path is not empty and has no white space at either end.
pub proof fn law_directive_path_is_trimmed(comment: Seq<char>)
    requires
        directive_path(comment) is Some,
    ensures
        ({
            let path = directive_path(comment)->0;
            path.len() > 0 && !is_space(path[0]) && !is_space(path.last())
        }),
{
    let after_slashes = stripped(trim_start(comment), "///"@)->0;
    let after = stripped(trim_start(after_slashes), "@source"@)->0;
    lemma_trim_start(after);
    lemma_trim_end(trim_start(after));
}

/// All of these are white space.
pub open spec fn is_blank(t: Seq<char>) -> bool {
    forall|i: int| 0 <= i < t.len() ==> is_space(#[trigger] t[i])
}

proof fn lemma_trim_start_blank(blank: Seq<char>, t: Seq<char>)
    requires
        is_blank(blank),
        t.len() > 0 ==> !is_space(t[0]),
    ensures
        trim_start(blank + t) == t,
    decreases blank.len(),
{
    if blank.len() == 0 {
        assert(blank + t =~= t);
    } else {
        let rest = blank.drop_first();
        assert forall|i: int| 0 <= i < rest.len() implies is_space(#[trigger] rest[i]) by {
            assert(rest[i] == blank[i + 1]);
        }
        lemma_trim_start_blank(rest, t);
        assert((blank + t).drop_first() =~= rest + t);
        assert((blank + t)[0] == blank[0]);
    }
}

proof fn lemma_trim_end_blank(t: Seq<char>, blank: Seq<char>)
    requires
        is_blank(blank),
        t.len() > 0 ==> !is_space(t.last()),
    ensures
        trim_end(t + blank) == t,
    decreases blank.len(),
{
    if blank.len() == 0 {
        assert(t + blank =~= t);
    } else {
        let init = blank.drop_last();
        assert forall|i: int| 0 <= i < init.len() implies is_space(#[trigger] init[i]) by {
            assert(init[i] == blank[i]);
        }
        lemma_trim_end_blank(t, init);
        assert((t + blank).drop_last() =~= t + init);
        assert((t + blank).last() == blank[blank.len() - 1]);
    }
}

/// The comment is `/// @source <path>`, with this white space around its parts.
pub open spec fn spells_directive(
    comment: Seq<char>,
    lead: Seq<char>,
    gap: Seq<char>,
    space: Seq<char>,
    path: Seq<char>,
    trail: Seq<char>,
) -> bool {
    &&& is_blank(lead) && is_blank(gap) && is_blank(space) && is_blank(trail)
    &&& space.len() > 0
    &&& comment == lead + ("///"@ + (gap + ("@source"@ + (space + (path + trail)))))
}

/// A comment `/// @source <path>` names its path, whatever white space stands around it:
/// before the marker, before `@source`, before the path (at least some) and behind it.
pub proof fn law_directives_are_read(
    comment: Seq<char>,
    lead: Seq<char>,
    gap: Seq<char>,
    space: Seq<char>,
    path: Seq<char>,
    trail: Seq<char>,
)
    requires
        spells_directive(comment, lead, gap, space, path, trail),
        path.len() > 0,
        !is_space(path[0]),
        !is_space(path.last()),
    ensures
        directive_path(comment) == Some(path),
{
    reveal_strlit("///");
    reveal_strlit("@source");
    let after = space + (path + trail);
    let marked = "@source"@ + after;
    let slashed = "///"@ + (gap + marked);
    assert(slashed[0] == '/');
    assert(marked[0] == '@');
    lemma_trim_start_blank(lead, slashed);
    law_strip_prefix("///"@, gap + marked);
    lemma_trim_start_blank(gap, marked);
    law_strip_prefix("@source"@, after);
    assert((path + trail)[0] == path[0]);
    lemma_trim_start_blank(space, path + trail);
    lemma_trim_end_blank(path, trail);
    assert(after[0] == space[0]);
}

proof fn lemma_trim_start_parts(t: Seq<char>) -> (blank: Seq<char>)
    ensures
        is_blank(blank),
        t == blank + trim_start(t),
{
    let n = t.len() - trim_start(t).len();
    law_trimming_takes_white_space(t, 0);
    let blank = t.take(n);
    assert forall|i: int| 0 <= i < blank.len() implies is_space(#[trigger] blank[i]) by {
        law_trimming_takes_white_space(t, i);
    }
    assert(t =~= blank + trim_start(t));
    blank
}

/// Nothing else is a directive.
pub proof fn law_only_directives_are_read(comment: Seq<char>)
    requires
        directive_path(comment) is Some,
    ensures
        exists|lead: Seq<char>, gap: Seq<char>, space: Seq<char>, trail: Seq<char>|
            #[trigger] spells_directive(
                comment,
                lead,
                gap,
                space,
                directive_path(comment)->0,
                trail,
            ),
{
    let lead = lemma_trim_start_parts(comment);
    law_strip_prefix("///"@, trim_start(comment));
    let slashed = stripped(trim_start(comment), "///"@)->0;
    let gap = lemma_trim_start_parts(slashed);
    law_strip_prefix("@source"@, trim_start(slashed));
    let after = stripped(trim_start(slashed), "@source"@)->0;
    let space = lemma_trim_start_parts(after);
    let rest = trim_start(after);
    let path = trim_end(rest);
    law_trimming_takes_white_space(rest, 0);
    let trail = rest.skip(path.len() as int);
    assert forall|i: int| 0 <= i < trail.len() implies is_space(#[trigger] trail[i]) by {
        law_trimming_takes_white_space(rest, path.len() + i);
    }
    assert(rest =~= path + trail);
    assert(space.len() > 0) by {
        if space.len() == 0 {
            assert(after =~= rest);
            law_trimming_takes_white_space(after, 0);
        }
    }
    assert(directive_path(comment)->0 == path);
    assert(spells_directive(comment, lead, gap, space, directive_path(comment)->0, trail));
}

/// The directives among the first `k` nodes: the row each comment ends on, and
/// its path.
pub open spec fn directives_upto(m: Model, k: int) -> Seq<(int, Seq<char>)>
    decreases k,
{
    if k <= 0 {
        Seq::empty()
    } else {
        let before = directives_upto(m, k - 1);
        let i = k - 1;
        if m.nodes[i].kind == "comment"@ {
            match directive_path(m.node_text(i)) {
                Some(path) => before.push((m.nodes[i].end_row, path)),
                None => before,
            }
        } else {
            before
        }
    }
}

/// The path of the first directive on row `row`, from `k` on.
pub open spec fn path_on_row(
    directives: Seq<(int, Seq<char>)>,
    row: int,
    k: int,
) -> Option<Seq<char>>
    decreases directives.len() - k,
{
    if k >= directives.len() {
        None
    } else if directives[k].0 == row {
        Some(directives[k].1)
    } else {
        path_on_row(directives, row, k + 1)
    }
}

/// The source of an import on row `line`: the directive on the row before it.
pub open spec fn source_of(m: Model, line: int) -> Option<Seq<char>> {
    if line == 0 {
        None
    } else {
        path_on_row(directives_upto(m, m.nodes.len() as int), line - 1, 0)
    }
}

/// The import that node `i` declares: a **named** node of kind `import` (the
/// keyword token has the same kind) whose path has three segments, none empty.
pub open spec fn import_at(m: Model, i: int) -> Option<EntryFacts> {
    if m.nodes[i].kind == "import"@ && m.nodes[i].named {
        match field_child(m.nodes, i, "path"@) {
            Some(path) => {
                let segments = split(m.node_text(path), '/');
                if segments.len() == 3 && segments[0].len() > 0 && segments[1].len() > 0
                    && segments[2].len() > 0 {
                    Some(
                        EntryFacts {
                            alias: match field_child(m.nodes, i, "alias"@) {
                                Some(alias) if m.nodes[alias].kind == "identifier"@ => Some(
                                    m.node_text(alias),
                                ),
                                _ => None,
                            },
                            user: segments[0],
                            lib: segments[1],
                            version: segments[2],
                            source: source_of(m, m.nodes[i].start_row),
                            line: m.nodes[i].start_row,
                            start_byte: m.nodes[i].start_byte,
                            end_byte: m.nodes[i].end_byte,
                        },
                    )
                } else {
                    None
                }
            },
            None => None,
        }
    } else {
        None
    }
}

/// The imports that the first `k` nodes declare, in source order.
pub open spec fn imports_upto(m: Model, k: int) -> Seq<EntryFacts>
    decreases k,
{
    if k <= 0 {
        Seq::empty()
    } else {
        match import_at(m, k - 1) {
            Some(entry) => imports_upto(m, k - 1).push(entry),
            None => imports_upto(m, k - 1),
        }
    }
}

/// All imports of a document.
pub open spec fn imports_of(m: Model) -> Seq<EntryFacts> {
    imports_upto(m, m.nodes.len() as int)
}

proof fn lemma_path_on_row(directives: Seq<(int, Seq<char>)>, row: int, k: int)
    requires
        0 <= k,
    ensures
        path_on_row(directives, row, k) matches Some(path) ==> exists|d: int|
            0 <= d < directives.len() && #[trigger] directives[d] == (row, path),
    decreases directives.len() - k,
{
    if k < directives.len() && directives[k].0 != row {
        lemma_path_on_row(directives, row, k + 1);
    }
}

proof fn lemma_directives_upto(m: Model, k: int, d: int)
    requires
        0 <= k <= m.nodes.len(),
        0 <= d < directives_upto(m, k).len(),
    ensures
        exists|i: int|
            0 <= i < k && (#[trigger] m.nodes[i]).kind == "comment"@ && m.nodes[i].end_row
                == directives_upto(m, k)[d].0 && directive_path(m.node_text(i)) == Some(
                directives_upto(m, k)[d].1,
            ),
    decreases k,
{
    let before = directives_upto(m, k - 1);
    if d < before.len() {
        lemma_directives_upto(m, k - 1, d);
    } else {
        assert(m.nodes[k - 1].kind == "comment"@);
    }
}

/// An import's source is the path of a directive comment that ends on the row
/// before the import; an import on the first row has none.
pub proof fn law_source_is_on_the_previous_row(m: Model, line: int)
    requires
        0 <= line,
        source_of(m, line) is Some,
    ensures
        line > 0,
        exists|i: int|
            0 <= i < m.nodes.len() && (#[trigger] m.nodes[i]).kind == "comment"@
                && m.nodes[i].end_row == line - 1 && directive_path(m.node_text(i)) == source_of(
                m,
                line,
            ),
{
    let directives = directives_upto(m, m.nodes.len() as int);
    lemma_path_on_row(directives, line - 1, 0);
    let d = choose|d: int|
        0 <= d < directives.len() && #[trigger] directives[d] == (line - 1, source_of(m, line)->0);
    lemma_directives_upto(m, m.nodes.len() as int, d);
}

/// Node `i` is a comment that ends on row `row` and names `path` as a source.
pub open spec fn names_source(m: Model, i: int, row: int, path: Seq<char>) -> bool {
    m.nodes[i].kind == "comment"@ && m.nodes[i].end_row == row && directive_path(m.node_text(i))
        == Some(path)
}

proof fn lemma_directives_extend(m: Model, k: int, row: int, path: Seq<char>, i: int)
    requires
        0 <= i < k <= m.nodes.len(),
        names_source(m, i, row, path),
        forall|j: int, other: Seq<char>|
            0 <= j < i ==> !#[trigger] names_source(m, j, row, other),
    ensures
        ({
            let at = directives_upto(m, i).len() as int;
            let all = directives_upto(m, k);
            &&& at < all.len()
            &&& all[at] == (row, path)
            &&& forall|d: int| 0 <= d < at ==> (#[trigger] all[d]).0 != row
        }),
    decreases k,
{
    if i < k - 1 {
        lemma_directives_extend(m, k - 1, row, path, i);
    } else {
        let before = directives_upto(m, i);
        assert forall|d: int| 0 <= d < before.len() implies (#[trigger] before[d]).0 != row by {
            lemma_directives_upto(m, i, d);
            let j = choose|j: int|
                0 <= j < i && (#[trigger] m.nodes[j]).kind == "comment"@ && m.nodes[j].end_row
                    == before[d].0 && directive_path(m.node_text(j)) == Some(before[d].1);
            assert(!names_source(m, j, row, before[d].1));
        }
    }
}

proof fn lemma_path_first(directives: Seq<(int, Seq<char>)>, row: int, k: int, at: int)
    requires
        0 <= k <= at < directives.len(),
        directives[at].0 == row,
        forall|d: int| 0 <= d < at ==> (#[trigger] directives[d]).0 != row,
    ensures
        path_on_row(directives, row, k) == Some(directives[at].1),
    decreases at - k,
{
    if k < at {
        lemma_path_first(directives, row, k + 1, at);
    }
}

/// The source of an import is what the first directive comment that ends on the row
/// before it names.
pub proof fn law_directive_gives_the_source(m: Model, line: int, path: Seq<char>, i: int)
    requires
        line > 0,
        0 <= i < m.nodes.len(),
        names_source(m, i, line - 1, path),
        forall|j: int, other: Seq<char>|
            0 <= j < i ==> !#[trigger] names_source(m, j, line - 1, other),
    ensures
        source_of(m, line) == Some(path),
{
    let n = m.nodes.len() as int;
    lemma_directives_extend(m, n, line - 1, path, i);
    lemma_path_first(directives_upto(m, n), line - 1, 0, directives_upto(m, i).len() as int);
}

proof fn lemma_import_found(m: Model, k: int, i: int)
    requires
        0 <= i < k <= m.nodes.len(),
        import_at(m, i) is Some,
    ensures
        imports_upto(m, k).contains(import_at(m, i)->0),
    decreases k,
{
    let before = imports_upto(m, k - 1);
    let now = imports_upto(m, k);
    let entry = import_at(m, i)->0;
    if i < k - 1 {
        lemma_import_found(m, k - 1, i);
        let x = choose|x: int| 0 <= x < before.len() && before[x] == entry;
        assert(now[x] == entry);
    } else {
        assert(now[now.len() - 1] == entry);
    }
}

/// The import that node `i` declares with the path `user/lib/version` at node `path`.
pub open spec fn declares_import(m: Model, i: int, path: int, entry: EntryFacts) -> bool {
    &&& m.nodes[i].kind == "import"@
    &&& m.nodes[i].named
    &&& field_child(m.nodes, i, "path"@) == Some(path)
    &&& m.node_text(path) == entry.user + "/"@ + entry.lib + "/"@ + entry.version
    &&& entry.user.len() > 0 && entry.lib.len() > 0 && entry.version.len() > 0
    &&& !entry.user.contains('/') && !entry.lib.contains('/') && !entry.version.contains('/')
    &&& match entry.alias {
        Some(name) => field_child(m.nodes, i, "alias"@) matches Some(id) && m.nodes[id].kind
            == "identifier"@ && m.node_text(id) == name,
        None => field_child(m.nodes, i, "alias"@) matches Some(id) ==> m.nodes[id].kind
            != "identifier"@,
    }
    &&& entry.source == source_of(m, m.nodes[i].start_row)
    &&& entry.line == m.nodes[i].start_row
    &&& entry.start_byte == m.nodes[i].start_byte
    &&& entry.end_byte == m.nodes[i].end_byte
}

proof fn lemma_three_segments(user: Seq<char>, lib: Seq<char>, version: Seq<char>)
    requires
        !user.contains('/'),
        !lib.contains('/'),
        !version.contains('/'),
    ensures
        split(user + "/"@ + lib + "/"@ + version, '/') == seq![user, lib, version],
{
    reveal_strlit("/");
    let parts = seq![user, lib, version];
    assert("/"@ =~= seq!['/']);
    assert(parts.drop_last() =~= seq![user, lib]);
    assert(seq![user, lib].drop_last() =~= seq![user]);
    reveal_with_fuel(join, 4);
    assert(join(parts, seq!['/']) == user + "/"@ + lib + "/"@ + version);
    law_join_is_undone_by_split(parts, '/');
}

/// Every import statement whose path is `user/lib/version` is in the import table, with
/// its alias if it has one, its source and its place.
pub proof fn law_imports_are_listed(m: Model, i: int, path: int, entry: EntryFacts)
    requires
        0 <= i < m.nodes.len(),
        declares_import(m, i, path, entry),
    ensures
        imports_of(m).contains(entry),
{
    lemma_three_segments(entry.user, entry.lib, entry.version);
    lemma_import_found(m, m.nodes.len() as int, i);
    assert(import_at(m, i)->0 == entry);
}

proof fn lemma_import_source(m: Model, k: int, x: int)
    requires
        0 <= k <= m.nodes.len(),
        0 <= x < imports_upto(m, k).len(),
    ensures
        exists|i: int| 0 <= i < k && #[trigger] import_at(m, i) == Some(imports_upto(m, k)[x]),
    decreases k,
{
    let before = imports_upto(m, k - 1);
    if x < before.len() {
        lemma_import_source(m, k - 1, x);
        assert(imports_upto(m, k)[x] == before[x]);
        let i = choose|i: int| 0 <= i < k - 1 && #[trigger] import_at(m, i) == Some(before[x]);
        assert(import_at(m, i) == Some(imports_upto(m, k)[x]));
    } else {
        assert(import_at(m, k - 1) == Some(imports_upto(m, k)[x]));
    }
}

/// What is in the import table is such a statement.
pub proof fn law_import_entries_are_statements(m: Model, x: int)
    requires
        0 <= x < imports_of(m).len(),
    ensures
        exists|i: int, path: int|
            0 <= i < m.nodes.len() && #[trigger] declares_import(m, i, path, imports_of(m)[x]),
{
    let entry = imports_of(m)[x];
    lemma_import_source(m, m.nodes.len() as int, x);
    let i = choose|i: int| 0 <= i < m.nodes.len() && #[trigger] import_at(m, i) == Some(entry);
    let path = field_child(m.nodes, i, "path"@)->0;
    let t = m.node_text(path);
    let parts = split(t, '/');
    reveal_strlit("/");
    assert("/"@ =~= seq!['/']);
    law_split_is_undone_by_join(t, '/', 0);
    law_split_is_undone_by_join(t, '/', 1);
    law_split_is_undone_by_join(t, '/', 2);
    assert(parts =~= seq![entry.user, entry.lib, entry.version]);
    assert(parts.drop_last() =~= seq![entry.user, entry.lib]);
    assert(parts.drop_last().drop_last() =~= seq![entry.user]);
    reveal_with_fuel(join, 4);
    assert(t == entry.user + "/"@ + entry.lib + "/"@ + entry.version);
    assert(declares_import(m, i, path, entry));
}

proof fn lemma_imports_in_order(m: Model, k: int)
    requires
        m.wf(),
        0 <= k <= m.nodes.len(),
    ensures
        forall|x: int|
            0 <= x < imports_upto(m, k).len() ==> exists|i: int|
                0 <= i < k && (#[trigger] imports_upto(m, k)[x]).start_byte
                    == (#[trigger] m.nodes[i]).start_byte,
        forall|x: int, y: int|
            #![trigger imports_upto(m, k)[x], imports_upto(m, k)[y]]
            0 <= x <= y < imports_upto(m, k).len() ==> imports_upto(m, k)[x].start_byte
                <= imports_upto(m, k)[y].start_byte,
    decreases k,
{
    reveal(in_text_order);
    if k > 0 {
        lemma_imports_in_order(m, k - 1);
        let before = imports_upto(m, k - 1);
        let now = imports_upto(m, k);
        assert forall|x: int| 0 <= x < now.len() implies exists|i: int|
            0 <= i < k && (#[trigger] now[x]).start_byte == (#[trigger] m.nodes[i]).start_byte by {
            if x < before.len() {
                assert(now[x] == before[x]);
                let i = choose|i: int|
                    0 <= i < k - 1 && before[x].start_byte == (#[trigger] m.nodes[i]).start_byte;
                assert(now[x].start_byte == m.nodes[i].start_byte);
            } else {
                assert(now[x].start_byte == m.nodes[k - 1].start_byte);
            }
        }
        assert forall|x: int, y: int|
            #![trigger now[x], now[y]]
            0 <= x <= y < now.len() implies now[x].start_byte <= now[y].start_byte by {
            if y < before.len() {
                assert(now[x] == before[x] && now[y] == before[y]);
            } else {
                let i = choose|i: int|
                    0 <= i < k && now[x].start_byte == (#[trigger] m.nodes[i]).start_byte;
                assert(m.nodes[i].start_byte <= m.nodes[k - 1].start_byte);
            }
        }
    }
}

/// The imports of a document stand in source order.
pub proof fn law_imports_in_source_order(m: Model, x: int, y: int)
    requires
        m.wf(),
        0 <= x <= y < imports_of(m).len(),
    ensures
        imports_of(m)[x].start_byte <= imports_of(m)[y].start_byte,
{
    lemma_imports_in_order(m, m.nodes.len() as int);
}

/// Parse all `import` statements (and their `/// @source` directives) from a
/// document into an [`ImportTable`].
pub fn import_table(doc: &Document) -> (r: ImportTable)
    requires
        doc.wf(),
    ensures
        r@ == imports_of(doc@),
{
    let directives = collect_source_directives(doc);
    let mut entries: Vec<ImportEntry> = Vec::new();
    let mut i: usize = 0;
    proof {
        lemma_views_empty::<ImportEntry>();
    }
    while i < doc.tree().len()
        invariant
            doc.wf(),
            i <= doc@.nodes.len(),
            directive_views(directives@) == directives_upto(doc@, doc@.nodes.len() as int),
            views(entries@) == imports_upto(doc@, i as int),
        decreases doc@.nodes.len() - i,
    {
        if let Some(entry) = parse_import_node(doc, i, &directives) {
            proof {
                lemma_views_push(entries@, entry);
            }
            entries.push(entry);
        }
        i = i + 1;
    }
    ImportTable { entries }
}

/// Directives, in mathematical values.
pub open spec fn directive_views(s: Seq<(usize, String)>) -> Seq<(int, Seq<char>)> {
    s.map_values(|d: (usize, String)| (d.0 as int, d.1@))
}

/// The source of an import on row `line`.
fn find_source(directives: &Vec<(usize, String)>, line: usize) -> (r: Option<String>)
    ensures
        opt_view(r) == if line == 0 {
            None
        } else {
            path_on_row(directive_views(directives@), line - 1, 0)
        },
{
    if line == 0 {
        return None;
    }
    let ghost all = directive_views(directives@);
    let mut k: usize = 0;
    while k < directives.len()
        invariant
            line > 0,
            all == directive_views(directives@),
            k <= directives@.len(),
            path_on_row(all, line - 1, 0) == path_on_row(all, line - 1, k as int),
        decreases directives@.len() - k,
    {
        proof {
            assert(all[k as int] == (directives@[k as int].0 as int, directives@[k as int].1@));
        }
        if directives[k].0 == line - 1 {
            return Some(directives[k].1.clone());
        }
        k = k + 1;
    }
    None
}

/// The import that node `i` declares, or `None` if it declares none.
fn parse_import_node(doc: &Document, i: usize, directives: &Vec<(usize, String)>) -> (r: Option<
    ImportEntry,
>)
    requires
        doc.wf(),
        i < doc@.nodes.len(),
        directive_views(directives@) == directives_upto(doc@, doc@.nodes.len() as int),
    ensures
        opt_view(r) == import_at(doc@, i as int),
{
    let nodes = doc.tree();
    let node = &nodes[i];
    proof {
        assert(node@ == doc@.nodes[i as int]);
    }
    if !node.named || !node.is("import") {
        return None;
    }
    let path = match child_by_field(nodes, i, "path") {
        Some(path) => path,
        None => {
            return None;
        },
    };
    let segments = str_split(doc.node_text(path), '/');
    let ghost parts = split(doc@.node_text(path as int), '/');
    proof {
        assert(segments@.len() == parts.len());
        assert(forall|k: int| 0 <= k < segments@.len() ==> segments@[k]@ == #[trigger] parts[k]);
    }
    if segments.len() != 3 || segments[0].as_str().is_empty() || segments[1].as_str().is_empty()
        || segments[2].as_str().is_empty() {
        return None;
    }
    let alias = match child_by_field(nodes, i, "alias") {
        Some(alias) => {
            proof {
                assert(nodes@[alias as int]@ == doc@.nodes[alias as int]);
            }
            if nodes[alias].is("identifier") {
                Some(doc.node_text(alias).to_owned())
            } else {
                None
            }
        },
        None => None,
    };
    Some(
        ImportEntry {
            alias,
            user: segments[0].clone(),
            lib: segments[1].clone(),
            version: segments[2].clone(),
            source: find_source(directives, node.start_row),
            line: node.start_row,
            start_byte: node.start_byte,
            end_byte: node.end_byte,
        },
    )
}

/// `(row, source_path)` of every `comment` node whose text is a
/// `/// @source <path>` directive. A directive is a single line, so the row its
/// comment ends on is the row it stands on.
fn collect_source_directives(doc: &Document) -> (r: Vec<(usize, String)>)
    requires
        doc.wf(),
    ensures
        directive_views(r@) == directives_upto(doc@, doc@.nodes.len() as int),
{
    let mut out: Vec<(usize, String)> = Vec::new();
    let mut i: usize = 0;
    proof {
        assert(directive_views(out@) =~= Seq::<(int, Seq<char>)>::empty());
    }
    while i < doc.tree().len()
        invariant
            doc.wf(),
            i <= doc@.nodes.len(),
            directive_views(out@) == directives_upto(doc@, i as int),
        decreases doc@.nodes.len() - i,
    {
        let node = &doc.tree()[i];
        proof {
            assert(node@ == doc@.nodes[i as int]);
        }
        if node.is("comment") {
            if let Some(path) = parse_source_directive(doc.node_text(i)) {
                let ghost before = out@;
                let ghost pair = (node.end_row as int, path@);
                out.push((node.end_row, path));
                proof {
                    assert(directive_views(out@) =~= directive_views(before).push(pair));
                }
            }
        }
        i = i + 1;
    }
    out
}

// ---------------------------------------------------------------------------
// Exported declarations
// ---------------------------------------------------------------------------

/// What kind of top-level exported declaration a symbol is.
#[derive(Debug, Clone, Copy, PartialEq, Eq, Structural)]
pub enum ExportKind {
    Function,
    Method,
    Type,
    Enum,
}

/// One parameter of an exported function/method.
///
/// `declared_type` is the source text of the parameter's type if it has one.
#[derive(Debug, PartialEq, Eq)]
pub struct ExportedParam {
    pub name: String,
    pub declared_type: Option<String>,
    pub has_default: bool,
}

/// What an [`ExportedParam`] says.
pub struct ParamFacts {
    pub name: Seq<char>,
    pub declared_type: Option<Seq<char>>,
    pub has_default: bool,
}

impl View for ExportedParam {
    type V = ParamFacts;

    open spec fn view(&self) -> ParamFacts {
        ParamFacts {
            name: self.name@,
            declared_type: opt_view(self.declared_type),
            has_default: self.has_default,
        }
    }
}

impl Clone for ExportedParam {
    fn clone(&self) -> (r: Self)
        ensures
            r@ == self@,
    {
        ExportedParam {
            name: self.name.clone(),
            declared_type: match &self.declared_type {
                Some(t) => Some(t.clone()),
                None => None,
            },
            has_default: self.has_default,
        }
    }
}

/// A single top-level exported declaration from a lib file.
///
/// `params` is empty for [`ExportKind::Type`] and [`ExportKind::Enum`].
/// `name_byte_start`/`name_byte_end` are the byte offsets of the declaration's
/// NAME identifier in the LIB source.
#[derive(Debug, PartialEq, Eq)]
pub struct ExportedSymbol {
    pub name: String,
    pub kind: ExportKind,
    pub params: Vec<ExportedParam>,
    /// Byte offset of the first byte of the name identifier in the lib source.
    pub name_byte_start: usize,
    /// Byte offset one past the last byte of the name identifier in the lib source.
    pub name_byte_end: usize,
}

/// What an [`ExportedSymbol`] says.
pub struct ExportFacts {
    pub name: Seq<char>,
    pub kind: ExportKind,
    pub params: Seq<ParamFacts>,
    pub name_byte_start: int,
    pub name_byte_end: int,
}

impl View for ExportedSymbol {
    type V = ExportFacts;

    open spec fn view(&self) -> ExportFacts {
        ExportFacts {
            name: self.name@,
            kind: self.kind,
            params: views(self.params@),
            name_byte_start: self.name_byte_start as int,
            name_byte_end: self.name_byte_end as int,
        }
    }
}

impl Clone for ExportedSymbol {
    fn clone(&self) -> (r: Self)
        ensures
            r@ == self@,
    {
        let params = self.params.clone();
        proof {
            assert(views(params@) =~= views(self.params@));
        }
        ExportedSymbol {
            name: self.name.clone(),
            kind: self.kind,
            params,
            name_byte_start: self.name_byte_start,
            name_byte_end: self.name_byte_end,
        }
    }
}

/// A direct child of node `i` is the anonymous `export` token.
pub open spec fn is_exported(m: Model, i: int) -> bool {
    exists|k: int|
        0 <= k < children_of(m.nodes, i).len() && m.nodes[#[trigger] children_of(
            m.nodes,
            i,
        )[k]].kind == "export"@
}

/// Node `i` is an exported declaration at the top level.
pub open spec fn is_top_export(m: Model, i: int) -> bool {
    is_exported(m, i) && !is_nested(m, i)
}

/// The identifier under `field`.
pub open spec fn field_identifier(m: Model, i: int, field: Seq<char>) -> Option<int> {
    match field_child(m.nodes, i, field) {
        Some(id) if m.nodes[id].kind == "identifier"@ => Some(id),
        _ => None,
    }
}

/// The parameters of a declaration, and the type that waits for its parameter,
/// after the first `k` children. A type belongs to the next `argument`; a
/// `default_value` belongs to the one before it.
pub open spec fn params_upto(m: Model, list: Seq<int>, k: int) -> (
    Seq<ParamFacts>,
    Option<Seq<char>>,
)
    decreases k,
{
    if k <= 0 {
        (Seq::empty(), None)
    } else {
        let (params, pending) = params_upto(m, list, k - 1);
        let c = list[k - 1];
        let field = m.nodes[c].field;
        if field == Some("type"@) {
            (params, Some(m.node_text(c)))
        } else if field == Some("argument"@) && m.nodes[c].kind == "identifier"@ {
            (
                params.push(
                    ParamFacts { name: m.node_text(c), declared_type: pending, has_default: false },
                ),
                None,
            )
        } else if field == Some("default_value"@) && params.len() > 0 {
            (
                params.update(
                    params.len() - 1,
                    ParamFacts { has_default: true, ..params.last() },
                ),
                pending,
            )
        } else {
            (params, pending)
        }
    }
}

pub open spec fn params_of(m: Model, i: int) -> Seq<ParamFacts> {
    let list = children_of(m.nodes, i);
    params_upto(m, list, list.len() as int).0
}

pub open spec fn export_named(
    m: Model,
    id: int,
    kind: ExportKind,
    params: Seq<ParamFacts>,
) -> ExportFacts {
    ExportFacts {
        name: m.node_text(id),
        kind,
        params,
        name_byte_start: m.nodes[id].start_byte,
        name_byte_end: m.nodes[id].end_byte,
    }
}

/// The identifier that names a function: under `function`, or `method`.
pub open spec fn function_identifier(m: Model, i: int) -> Option<int> {
    match field_identifier(m, i, "function"@) {
        Some(id) => Some(id),
        None => field_identifier(m, i, "method"@),
    }
}

/// The export that node `i` declares.
pub open spec fn export_at(m: Model, i: int) -> Option<ExportFacts> {
    let kind = m.nodes[i].kind;
    if kind == "function_declaration_statement"@ && is_top_export(m, i) {
        match function_identifier(m, i) {
            Some(id) => Some(
                export_named(
                    m,
                    id,
                    if field_child(m.nodes, i, "method"@) is Some {
                        ExportKind::Method
                    } else {
                        ExportKind::Function
                    },
                    params_of(m, i),
                ),
            ),
            None => None,
        }
    } else if kind == "type_definition_statement"@ && is_top_export(m, i) {
        match field_identifier(m, i, "name"@) {
            Some(id) => Some(export_named(m, id, ExportKind::Type, Seq::empty())),
            None => None,
        }
    } else if kind == "enum_declaration"@ && is_top_export(m, i) {
        match field_identifier(m, i, "name"@) {
            Some(id) => Some(export_named(m, id, ExportKind::Enum, Seq::empty())),
            None => None,
        }
    } else {
        None
    }
}

/// The exports that the first `k` nodes declare, in source order.
pub open spec fn exports_upto(m: Model, k: int) -> Seq<ExportFacts>
    decreases k,
{
    if k <= 0 {
        Seq::empty()
    } else {
        match export_at(m, k - 1) {
            Some(symbol) => exports_upto(m, k - 1).push(symbol),
            None => exports_upto(m, k - 1),
        }
    }
}

/// All exports of a library.
pub open spec fn exports_of(m: Model) -> Seq<ExportFacts> {
    exports_upto(m, m.nodes.len() as int)
}

proof fn lemma_exports_upto(m: Model, k: int, x: int)
    requires
        0 <= k <= m.nodes.len(),
        0 <= x < exports_upto(m, k).len(),
    ensures
        slice_bytes(
            m.text,
            exports_upto(m, k)[x].name_byte_start,
            exports_upto(m, k)[x].name_byte_end,
        ) == exports_upto(m, k)[x].name,
        exports_upto(m, k)[x].kind == ExportKind::Type || exports_upto(m, k)[x].kind
            == ExportKind::Enum ==> exports_upto(m, k)[x].params.len() == 0,
    decreases k,
{
    let before = exports_upto(m, k - 1);
    if x < before.len() {
        lemma_exports_upto(m, k - 1, x);
    }
}

/// The name span of an export slices its name out of the library's source, and
/// types and enums have no parameters.
pub proof fn law_export_span_is_its_name(m: Model, x: int)
    requires
        0 <= x < exports_of(m).len(),
    ensures
        slice_bytes(m.text, exports_of(m)[x].name_byte_start, exports_of(m)[x].name_byte_end)
            == exports_of(m)[x].name,
        exports_of(m)[x].kind == ExportKind::Type || exports_of(m)[x].kind == ExportKind::Enum
            ==> exports_of(m)[x].params.len() == 0,
{
    lemma_exports_upto(m, m.nodes.len() as int, x);
}

/// Node `i` is an exported declaration of kind `kind`, at the top level, whose name is
/// at the identifier `id`; node `token` is its `export`.
pub open spec fn exports_name(m: Model, i: int, token: int, id: int, kind: ExportKind) -> bool {
    let node = m.nodes[i].kind;
    &&& stands_outside(m, i)
    &&& 0 <= token < m.nodes.len()
    &&& parent_of(m.nodes, token) == Some(i)
    &&& m.nodes[token].kind == "export"@
    &&& m.nodes[id].kind == "identifier"@
    &&& match kind {
        ExportKind::Function => node == "function_declaration_statement"@ && field_child(
            m.nodes,
            i,
            "method"@,
        ) is None && field_child(m.nodes, i, "function"@) == Some(id),
        ExportKind::Method => node == "function_declaration_statement"@ && field_child(
            m.nodes,
            i,
            "method"@,
        ) is Some && (field_child(m.nodes, i, "function"@) == Some(id) || (!(field_child(
            m.nodes,
            i,
            "function"@,
        ) matches Some(f) && m.nodes[f].kind == "identifier"@) && field_child(
            m.nodes,
            i,
            "method"@,
        ) == Some(id))),
        ExportKind::Type => node == "type_definition_statement"@ && field_child(m.nodes, i, "name"@)
            == Some(id),
        ExportKind::Enum => node == "enum_declaration"@ && field_child(m.nodes, i, "name"@) == Some(
            id,
        ),
    }
}

proof fn lemma_export_found(m: Model, k: int, i: int)
    requires
        0 <= i < k <= m.nodes.len(),
        export_at(m, i) is Some,
    ensures
        exports_upto(m, k).contains(export_at(m, i)->0),
    decreases k,
{
    let before = exports_upto(m, k - 1);
    let now = exports_upto(m, k);
    let symbol = export_at(m, i)->0;
    if i < k - 1 {
        lemma_export_found(m, k - 1, i);
        let x = choose|x: int| 0 <= x < before.len() && before[x] == symbol;
        assert(now[x] == symbol);
    } else {
        assert(now[now.len() - 1] == symbol);
    }
}

proof fn lemma_export_source(m: Model, k: int, x: int)
    requires
        0 <= k <= m.nodes.len(),
        0 <= x < exports_upto(m, k).len(),
    ensures
        exists|i: int| 0 <= i < k && #[trigger] export_at(m, i) == Some(exports_upto(m, k)[x]),
    decreases k,
{
    let before = exports_upto(m, k - 1);
    if x < before.len() {
        lemma_export_source(m, k - 1, x);
        assert(exports_upto(m, k)[x] == before[x]);
        let i = choose|i: int| 0 <= i < k - 1 && #[trigger] export_at(m, i) == Some(before[x]);
        assert(export_at(m, i) == Some(exports_upto(m, k)[x]));
    } else {
        assert(export_at(m, k - 1) == Some(exports_upto(m, k)[x]));
    }
}

proof fn lemma_export_kinds()
    ensures
        "function_declaration_statement"@.len() == 30,
        "type_definition_statement"@.len() == 25,
        "enum_declaration"@.len() == 16,
{
    reveal_strlit("function_declaration_statement");
    reveal_strlit("type_definition_statement");
    reveal_strlit("enum_declaration");
}

/// Every exported declaration at the top level is among the exports, under its name and
/// kind; functions and methods with their parameters, types and enums with none.
pub proof fn law_exports_are_listed(m: Model, i: int, token: int, id: int, kind: ExportKind)
    requires
        m.wf(),
        0 <= i < m.nodes.len(),
        exports_name(m, i, token, id, kind),
    ensures
        exports_of(m).contains(
            ExportFacts {
                name: slice_bytes(m.text, m.nodes[id].start_byte, m.nodes[id].end_byte),
                kind,
                params: if kind == ExportKind::Function || kind == ExportKind::Method {
                    params_of(m, i)
                } else {
                    Seq::empty()
                },
                name_byte_start: m.nodes[id].start_byte,
                name_byte_end: m.nodes[id].end_byte,
            },
        ),
{
    lemma_export_kinds();
    lemma_outside(m, i);
    law_children_are_complete(m.nodes, i, token);
    let list = children_of(m.nodes, i);
    let k = choose|k: int| 0 <= k < list.len() && list[k] == token;
    assert(m.nodes[list[k]].kind == "export"@);
    assert(is_exported(m, i));
    lemma_export_found(m, m.nodes.len() as int, i);
}

/// What is among the exports is such a declaration.
pub proof fn law_exports_are_declarations(m: Model, x: int)
    requires
        m.wf(),
        0 <= x < exports_of(m).len(),
    ensures
        exists|i: int, token: int, id: int|
            0 <= i < m.nodes.len() && #[trigger] exports_name(
                m,
                i,
                token,
                id,
                exports_of(m)[x].kind,
            ) && exports_of(m)[x].name == m.node_text(id) && exports_of(m)[x].name_byte_start
                == m.nodes[id].start_byte && exports_of(m)[x].name_byte_end == m.nodes[id].end_byte,
{
    let symbol = exports_of(m)[x];
    lemma_export_source(m, m.nodes.len() as int, x);
    let i = choose|i: int| 0 <= i < m.nodes.len() && #[trigger] export_at(m, i) == Some(symbol);
    lemma_outside(m, i);
    let list = children_of(m.nodes, i);
    let k = choose|k: int| 0 <= k < list.len() && m.nodes[#[trigger] list[k]].kind == "export"@;
    lemma_children(m.nodes, i);
    law_parent_of_child(m.nodes, i, k);
    assert(i < list[k] < end_of(m.nodes, i));
    let id = match symbol.kind {
        ExportKind::Function | ExportKind::Method => function_identifier(m, i)->0,
        ExportKind::Type | ExportKind::Enum => field_identifier(m, i, "name"@)->0,
    };
    assert(exports_name(m, i, list[k], id, symbol.kind));
}

/// Child number `k` of a declaration is one of its parameters.
pub open spec fn is_parameter(m: Model, list: Seq<int>, k: int) -> bool {
    m.nodes[list[k]].field == Some("argument"@) && m.nodes[list[k]].kind == "identifier"@
}

/// How many of the first `k` children are parameters.
pub open spec fn parameters_before(m: Model, list: Seq<int>, k: int) -> int
    decreases k,
{
    if k <= 0 {
        0
    } else {
        parameters_before(m, list, k - 1) + if is_parameter(m, list, k - 1) {
            1int
        } else {
            0int
        }
    }
}

proof fn lemma_fields_differ()
    ensures
        "type"@.len() == 4,
        "argument"@.len() == 8,
        "default_value"@.len() == 13,
{
    reveal_strlit("type");
    reveal_strlit("argument");
    reveal_strlit("default_value");
}

proof fn lemma_parameter_kept(m: Model, list: Seq<int>, j: int, k: int)
    requires
        0 <= k <= list.len(),
    ensures
        params_upto(m, list, k).0.len() == parameters_before(m, list, k),
        0 <= j < k && is_parameter(m, list, j) ==> {
            let p = parameters_before(m, list, j);
            let param = params_upto(m, list, k).0[p];
            &&& 0 <= p < params_upto(m, list, k).0.len()
            &&& param.name == m.node_text(list[j])
            &&& param.declared_type == params_upto(m, list, j).1
        },
    decreases k,
{
    lemma_fields_differ();
    if k > 0 {
        lemma_parameter_kept(m, list, j, k - 1);
    }
}

proof fn lemma_type_waits(m: Model, list: Seq<int>, t: int, k: int)
    requires
        0 <= t < k <= list.len(),
        m.nodes[list[t]].field == Some("type"@),
        forall|x: int|
            t < x < k ==> !#[trigger] is_parameter(m, list, x) && m.nodes[list[x]].field != Some(
                "type"@,
            ),
    ensures
        params_upto(m, list, k).1 == Some(m.node_text(list[t])),
    decreases k,
{
    lemma_fields_differ();
    if t < k - 1 {
        assert(!is_parameter(m, list, k - 1));
        lemma_type_waits(m, list, t, k - 1);
    }
}

proof fn lemma_no_type_waits(m: Model, list: Seq<int>, s: int, k: int)
    requires
        0 <= s <= k <= list.len(),
        s > 0 ==> is_parameter(m, list, s - 1),
        forall|x: int|
            s <= x < k ==> !#[trigger] is_parameter(m, list, x) && m.nodes[list[x]].field != Some(
                "type"@,
            ),
    ensures
        params_upto(m, list, k).1 is None,
    decreases k,
{
    lemma_fields_differ();
    if s < k {
        assert(!is_parameter(m, list, k - 1));
        lemma_no_type_waits(m, list, s, k - 1);
    }
}

proof fn lemma_default(m: Model, list: Seq<int>, j: int, k: int)
    requires
        0 <= j < k <= list.len(),
        is_parameter(m, list, j),
    ensures
        ({
            let p = parameters_before(m, list, j);
            &&& 0 <= p < params_upto(m, list, k).0.len()
            &&& (forall|x: int| j < x < k ==> !#[trigger] is_parameter(m, list, x))
                ==> p == params_upto(m, list, k).0.len() - 1
            &&& params_upto(m, list, k).0[p].has_default <==> exists|d: int|
                j < d < k && m.nodes[#[trigger] list[d]].field == Some("default_value"@) && forall|
                    x: int,
                |
                    j < x < d ==> !#[trigger] is_parameter(m, list, x)
        }),
    decreases k,
{
    lemma_fields_differ();
    lemma_parameter_kept(m, list, j, k);
    lemma_parameter_kept(m, list, j, k - 1);
    let p = parameters_before(m, list, j);
    if j < k - 1 {
        lemma_default(m, list, j, k - 1);
        lemma_parameters_grow(m, list, j, k - 1);
        let c = list[k - 1];
        let before = params_upto(m, list, k - 1).0;
        let now = params_upto(m, list, k).0;
        if m.nodes[c].field == Some("default_value"@) && !(exists|x: int|
            j < x < k - 1 && #[trigger] is_parameter(m, list, x)) {
            assert(p == before.len() - 1);
            assert(now[p].has_default);
            assert(m.nodes[list[k - 1]].field == Some("default_value"@));
        } else {
            assert(now[p].has_default == before[p].has_default) by {
                if m.nodes[c].field == Some("default_value"@) {
                    let x = choose|x: int| j < x < k - 1 && #[trigger] is_parameter(m, list, x);
                    lemma_parameters_grow(m, list, x, k - 1);
                    lemma_parameters_grow(m, list, j, x);
                }
            }
        }
    }
}

proof fn lemma_parameters_grow(m: Model, list: Seq<int>, j: int, k: int)
    requires
        0 <= j < k,
        is_parameter(m, list, j),
    ensures
        parameters_before(m, list, j) < parameters_before(m, list, k),
    decreases k,
{
    if j < k - 1 {
        lemma_parameters_grow(m, list, j, k - 1);
    }
}

/// A declaration has a parameter for each of its argument identifiers, under its name,
/// and that parameter's type is the one written at child `t` before it, where no other
/// type and no parameter stands between them.
pub proof fn law_parameters_are_read(m: Model, i: int, j: int, t: int)
    requires
        0 <= i < m.nodes.len(),
        0 <= j < children_of(m.nodes, i).len(),
        is_parameter(m, children_of(m.nodes, i), j),
    ensures
        ({
            let list = children_of(m.nodes, i);
            let p = parameters_before(m, list, j);
            &&& 0 <= p < params_of(m, i).len()
            &&& params_of(m, i)[p].name == m.node_text(list[j])
            &&& 0 <= t < j && m.nodes[list[t]].field == Some("type"@) && (forall|x: int|
                t < x < j ==> !#[trigger] is_parameter(m, list, x) && m.nodes[list[x]].field
                    != Some("type"@)) ==> params_of(m, i)[p].declared_type == Some(
                m.node_text(list[t]),
            )
        }),
{
    let list = children_of(m.nodes, i);
    lemma_parameter_kept(m, list, j, list.len() as int);
    if 0 <= t < j && m.nodes[list[t]].field == Some("type"@) && (forall|x: int|
        t < x < j ==> !#[trigger] is_parameter(m, list, x) && m.nodes[list[x]].field != Some(
            "type"@,
        )) {
        lemma_type_waits(m, list, t, j);
    }
}

/// A parameter with no type between it and the parameter before it, or the start, has no
/// type.
pub proof fn law_untyped_parameters(m: Model, i: int, j: int, s: int)
    requires
        0 <= i < m.nodes.len(),
        0 <= s <= j < children_of(m.nodes, i).len(),
        is_parameter(m, children_of(m.nodes, i), j),
        s > 0 ==> is_parameter(m, children_of(m.nodes, i), s - 1),
        forall|x: int|
            s <= x < j ==> !#[trigger] is_parameter(m, children_of(m.nodes, i), x)
                && m.nodes[children_of(m.nodes, i)[x]].field != Some("type"@),
    ensures
        params_of(m, i)[parameters_before(
            m,
            children_of(m.nodes, i),
            j,
        )].declared_type is None,
{
    let list = children_of(m.nodes, i);
    lemma_parameter_kept(m, list, j, list.len() as int);
    lemma_no_type_waits(m, list, s, j);
}

/// A parameter has a default where one is written behind it, before the next parameter,
/// and only there.
pub proof fn law_parameter_defaults(m: Model, i: int, j: int)
    requires
        0 <= i < m.nodes.len(),
        0 <= j < children_of(m.nodes, i).len(),
        is_parameter(m, children_of(m.nodes, i), j),
    ensures
        ({
            let list = children_of(m.nodes, i);
            params_of(m, i)[parameters_before(m, list, j)].has_default <==> exists|d: int|
                j < d < list.len() && m.nodes[#[trigger] list[d]].field == Some("default_value"@)
                    && forall|x: int| j < x < d ==> !#[trigger] is_parameter(m, list, x)
        }),
{
    let list = children_of(m.nodes, i);
    lemma_default(m, list, j, list.len() as int);
}

/// There are no other parameters, and they stand in the order of the text.
pub proof fn law_parameters_in_order(m: Model, i: int)
    ensures
        ({
            let list = children_of(m.nodes, i);
            params_of(m, i).map_values(|p: ParamFacts| p.name) == list.filter(
                |c: int| m.nodes[c].field == Some("argument"@) && m.nodes[c].kind == "identifier"@,
            ).map_values(|c: int| m.node_text(c))
        }),
{
    let list = children_of(m.nodes, i);
    lemma_parameter_names(m, list, list.len() as int);
    assert(list.take(list.len() as int) =~= list);
}

proof fn lemma_parameter_names(m: Model, list: Seq<int>, k: int)
    requires
        0 <= k <= list.len(),
    ensures
        params_upto(m, list, k).0.map_values(|p: ParamFacts| p.name) == list.take(k).filter(
            |c: int| m.nodes[c].field == Some("argument"@) && m.nodes[c].kind == "identifier"@,
        ).map_values(|c: int| m.node_text(c)),
    decreases k,
{
    lemma_fields_differ();
    let name = |p: ParamFacts| p.name;
    let text = |c: int| m.node_text(c);
    let keep = |c: int|
        m.nodes[c].field == Some("argument"@) && m.nodes[c].kind == "identifier"@;
    if k > 0 {
        lemma_parameter_names(m, list, k - 1);
        lemma_filter_take(list, keep, k - 1);
        let before = params_upto(m, list, k - 1).0;
        let now = params_upto(m, list, k).0;
        let c = list[k - 1];
        let some = list.take(k - 1).filter(keep);
        if keep(c) {
            assert(now.map_values(name) =~= before.map_values(name).push(m.node_text(c)));
            assert(some.push(c).map_values(text) =~= some.map_values(text).push(text(c)));
        } else {
            assert(now.map_values(name) =~= before.map_values(name));
        }
    } else {
        reveal(Seq::filter);
        assert(list.take(0) =~= Seq::<int>::empty());
        assert(params_upto(m, list, k).0.map_values(name) =~= list.take(k).filter(keep).map_values(
            text,
        ));
    }
}

/// No exported declaration stands inside another one: what stands inside a
/// declaration is not at the top level.
proof fn lemma_exports_apart(m: Model, i: int, j: int)
    requires
        0 <= i < j < m.nodes.len(),
        export_at(m, i) is Some,
        export_at(m, j) is Some,
    ensures
        end_of(m.nodes, i) <= j,
{
    if j < end_of(m.nodes, i) {
        assert(lies_below(m.nodes, i, j) && opens_scope(m.nodes[i].kind));
        assert(is_nested(m, j));
    }
}

/// The name of an export is at a child of its declaration.
proof fn lemma_export_child(m: Model, i: int) -> (c: int)
    requires
        0 <= i < m.nodes.len(),
        export_at(m, i) is Some,
    ensures
        i < c < end_of(m.nodes, i) <= m.nodes.len(),
        export_at(m, i)->0.name_byte_start == m.nodes[c].start_byte,
        export_at(m, i)->0.name_byte_end == m.nodes[c].end_byte,
{
    lemma_children(m.nodes, i);
    let list = children_of(m.nodes, i);
    lemma_first_field(m.nodes, list, "function"@);
    lemma_first_field(m.nodes, list, "method"@);
    lemma_first_field(m.nodes, list, "name"@);
    let c = if m.nodes[i].kind == "function_declaration_statement"@ {
        function_identifier(m, i)->0
    } else {
        field_identifier(m, i, "name"@)->0
    };
    assert(list.contains(c));
    let k = choose|k: int| 0 <= k < list.len() && list[k] == c;
    assert(i < list[k] < end_of(m.nodes, i));
    c
}

proof fn lemma_exports_in_order(m: Model, k: int)
    requires
        m.wf(),
        0 <= k <= m.nodes.len(),
    ensures
        forall|x: int|
            0 <= x < exports_upto(m, k).len() ==> exists|i: int|
                0 <= i < k && #[trigger] export_at(m, i) == Some(#[trigger] exports_upto(m, k)[x]),
        forall|x: int, y: int|
            #![trigger exports_upto(m, k)[x], exports_upto(m, k)[y]]
            0 <= x < y < exports_upto(m, k).len() ==> exports_upto(m, k)[x].name_byte_end
                <= exports_upto(m, k)[y].name_byte_start,
    decreases k,
{
    if k > 0 {
        lemma_exports_in_order(m, k - 1);
        let before = exports_upto(m, k - 1);
        let now = exports_upto(m, k);
        assert forall|x: int| 0 <= x < now.len() implies exists|i: int|
            0 <= i < k && #[trigger] export_at(m, i) == Some(#[trigger] now[x]) by {
            if x < before.len() {
                assert(now[x] == before[x]);
                let i = choose|i: int|
                    0 <= i < k - 1 && #[trigger] export_at(m, i) == Some(before[x]);
                assert(export_at(m, i) == Some(now[x]));
            } else {
                assert(export_at(m, k - 1) == Some(now[x]));
            }
        }
        assert forall|x: int, y: int|
            #![trigger now[x], now[y]]
            0 <= x < y < now.len() implies now[x].name_byte_end <= now[y].name_byte_start by {
            if y < before.len() {
                assert(now[x] == before[x] && now[y] == before[y]);
            } else {
                assert(now[x] == before[x]);
                let i = choose|i: int|
                    0 <= i < k - 1 && #[trigger] export_at(m, i) == Some(before[x]);
                let j = k - 1;
                assert(export_at(m, j) == Some(now[y]));
                let a = lemma_export_child(m, i);
                let b = lemma_export_child(m, j);
                lemma_exports_apart(m, i, j);
                lemma_end_below(m.nodes, i, a);
                assert(m.nodes[a].end_byte <= m.nodes[b].start_byte) by {
                    reveal(in_text_order);
                }
            }
        }
    }
}

proof fn lemma_export_span(m: Model, k: int, x: int)
    requires
        m.wf(),
        0 <= k <= m.nodes.len(),
        0 <= x < exports_upto(m, k).len(),
    ensures
        exports_upto(m, k)[x].name_byte_start <= exports_upto(m, k)[x].name_byte_end,
    decreases k,
{
    let before = exports_upto(m, k - 1);
    if x < before.len() {
        lemma_export_span(m, k - 1, x);
    } else {
        let c = lemma_export_child(m, k - 1);
        assert(covers(m.text, m.nodes[c]));
        reveal(covers);
    }
}

/// The exports of a library stand in source order: the name of each ends before the
/// name of the next starts.
pub proof fn law_exports_in_source_order(m: Model, x: int, y: int)
    requires
        m.wf(),
        0 <= x < y < exports_of(m).len(),
    ensures
        exports_of(m)[x].name_byte_start <= exports_of(m)[x].name_byte_end
            <= exports_of(m)[y].name_byte_start <= exports_of(m)[y].name_byte_end,
{
    lemma_exports_in_order(m, m.nodes.len() as int);
    lemma_export_span(m, m.nodes.len() as int, x);
    lemma_export_span(m, m.nodes.len() as int, y);
}

/// Extract every top-level **exported** declaration from a parsed lib document.
///
/// Returns an empty vec for a lib with no exports — that is not an error.
/// Best-effort on trees with errors: missing fields are simply skipped.
pub fn exported_symbols(doc: &Document) -> (r: Vec<ExportedSymbol>)
    requires
        doc.wf(),
    ensures
        views(r@) == exports_of(doc@),
{
    let mut out: Vec<ExportedSymbol> = Vec::new();
    let mut i: usize = 0;
    proof {
        lemma_views_empty::<ExportedSymbol>();
    }
    while i < doc.tree().len()
        invariant
            doc.wf(),
            i <= doc@.nodes.len(),
            views(out@) == exports_upto(doc@, i as int),
        decreases doc@.nodes.len() - i,
    {
        if let Some(symbol) = parse_export(doc, i) {
            proof {
                lemma_views_push(out@, symbol);
            }
            out.push(symbol);
        }
        i = i + 1;
    }
    out
}

/// The export that node `i` declares.
fn parse_export(doc: &Document, i: usize) -> (r: Option<ExportedSymbol>)
    requires
        doc.wf(),
        i < doc@.nodes.len(),
    ensures
        opt_view(r) == export_at(doc@, i as int),
{
    let node = &doc.tree()[i];
    proof {
        assert(node@ == doc@.nodes[i as int]);
        lemma_views_empty::<ExportedParam>();
    }
    if node.is("function_declaration_statement") && declares_export(doc, i) {
        parse_exported_function(doc, i)
    } else if node.is("type_definition_statement") && declares_export(doc, i) {
        match field_identifier_node(doc, i, "name") {
            Some(id) => Some(named_symbol(doc, id, ExportKind::Type, Vec::new())),
            None => None,
        }
    } else if node.is("enum_declaration") && declares_export(doc, i) {
        match field_identifier_node(doc, i, "name") {
            Some(id) => Some(named_symbol(doc, id, ExportKind::Enum, Vec::new())),
            None => None,
        }
    } else {
        None
    }
}

/// Whether node `i` is an exported declaration at the top level.
fn declares_export(doc: &Document, i: usize) -> (r: bool)
    requires
        doc.wf(),
        i < doc@.nodes.len(),
    ensures
        r == is_top_export(doc@, i as int),
{
    has_export_child(doc, i) && !is_nested_node(doc, i)
}

/// True iff a direct child is the anonymous `export` token. `export` has no
/// field, so this is the only reliable way to detect it.
fn has_export_child(doc: &Document, i: usize) -> (r: bool)
    requires
        doc.wf(),
        i < doc@.nodes.len(),
    ensures
        r == is_exported(doc@, i as int),
{
    let list = children(doc.tree(), i);
    let ghost all = children_of(doc@.nodes, i as int);
    let mut k: usize = 0;
    while k < list.len()
        invariant
            doc.wf(),
            all == children_of(doc@.nodes, i as int),
            all == indices(list@),
            k <= list@.len(),
            forall|x: int| 0 <= x < list@.len() ==> i < #[trigger] list@[x] < doc@.nodes.len(),
            forall|x: int| 0 <= x < k ==> doc@.nodes[#[trigger] all[x]].kind != "export"@,
        decreases list@.len() - k,
    {
        let node = &doc.tree()[list[k]];
        proof {
            assert(all[k as int] == list@[k as int]);
            assert(node@ == doc@.nodes[all[k as int]]);
        }
        if node.is("export") {
            return true;
        }
        k = k + 1;
    }
    false
}

/// The `identifier`-kinded child under `field`.
fn field_identifier_node(doc: &Document, i: usize, field: &str) -> (r: Option<usize>)
    requires
        doc.wf(),
        i < doc@.nodes.len(),
    ensures
        match r {
            Some(id) => field_identifier(doc@, i as int, field@) == Some(id as int) && id
                < doc@.nodes.len(),
            None => field_identifier(doc@, i as int, field@) is None,
        },
{
    match child_by_field(doc.tree(), i, field) {
        Some(id) => {
            let node = &doc.tree()[id];
            proof {
                assert(node@ == doc@.nodes[id as int]);
            }
            if node.is("identifier") {
                Some(id)
            } else {
                None
            }
        },
        None => None,
    }
}

fn named_symbol(
    doc: &Document,
    id: usize,
    kind: ExportKind,
    params: Vec<ExportedParam>,
) -> (r: ExportedSymbol)
    requires
        doc.wf(),
        id < doc@.nodes.len(),
    ensures
        r@ == export_named(doc@, id as int, kind, views(params@)),
{
    let node = &doc.tree()[id];
    proof {
        assert(node@ == doc@.nodes[id as int]);
    }
    ExportedSymbol {
        name: doc.node_text(id).to_owned(),
        kind,
        params,
        name_byte_start: node.start_byte,
        name_byte_end: node.end_byte,
    }
}

/// Build an [`ExportedSymbol`] for an exported function or method declaration.
fn parse_exported_function(doc: &Document, i: usize) -> (r: Option<ExportedSymbol>)
    requires
        doc.wf(),
        i < doc@.nodes.len(),
        doc@.nodes[i as int].kind == "function_declaration_statement"@,
        is_top_export(doc@, i as int),
    ensures
        opt_view(r) == export_at(doc@, i as int),
{
    // Regular functions bind the `function` field; methods bind `method`. The
    // presence of `method` decides the kind.
    let is_method = child_by_field(doc.tree(), i, "method").is_some();
    let id = match field_identifier_node(doc, i, "function") {
        Some(id) => id,
        None => match field_identifier_node(doc, i, "method") {
            Some(id) => id,
            None => {
                return None;
            },
        },
    };
    let kind = if is_method {
        ExportKind::Method
    } else {
        ExportKind::Function
    };
    Some(named_symbol(doc, id, kind, collect_params(doc, i)))
}

/// Collect a declaration's parameters in one ordered walk over its children.
///
/// Per parameter the grammar has, in this order: optional `qualifier`, optional
/// `type`, required `argument`, optional `default_value`. The `type` list can be
/// shorter than the `argument` list, so a `type` goes to the next `argument` as
/// we walk.
fn collect_params(doc: &Document, i: usize) -> (r: Vec<ExportedParam>)
    requires
        doc.wf(),
        i < doc@.nodes.len(),
    ensures
        views(r@) == params_of(doc@, i as int),
{
    let ghost m = doc@;
    let list = children(doc.tree(), i);
    let ghost all = children_of(m.nodes, i as int);
    let mut params: Vec<ExportedParam> = Vec::new();
    let mut pending: Option<String> = None;
    let mut k: usize = 0;
    proof {
        lemma_views_empty::<ExportedParam>();
    }
    while k < list.len()
        invariant
            doc.wf(),
            m == doc@,
            all == indices(list@),
            k <= list@.len(),
            forall|x: int| 0 <= x < list@.len() ==> i < #[trigger] list@[x] < m.nodes.len(),
            (views(params@), opt_view(pending)) == params_upto(m, all, k as int),
        decreases list@.len() - k,
    {
        let c: usize = list[k];
        let node = &doc.tree()[c];
        proof {
            assert(all[k as int] == c);
            assert(node@ == m.nodes[c as int]);
        }
        if node.under("type") {
            pending = Some(doc.node_text(c).to_owned());
        } else if node.under("argument") && node.is("identifier") {
            let param = ExportedParam {
                name: doc.node_text(c).to_owned(),
                declared_type: pending,
                has_default: false,
            };
            pending = None;
            proof {
                lemma_views_push(params@, param);
            }
            params.push(param);
        } else if node.under("default_value") {
            // Marks the parameter we just emitted as having a default.
            if let Some(last) = params.pop() {
                let ghost rest = params@;
                let marked = ExportedParam {
                    name: last.name,
                    declared_type: last.declared_type,
                    has_default: true,
                };
                params.push(marked);
                proof {
                    let before = views(rest.push(last));
                    assert(views(params@) =~= before.update(before.len() - 1, marked@));
                }
            } else {
                proof {
                    assert(views(params@).len() == params@.len());
                }
            }
        }
        k = k + 1;
    }
    params
}

// ---------------------------------------------------------------------------
// Resolution
// ---------------------------------------------------------------------------

/// `std::path::PathBuf`, a path that is handed through.
#[verifier::external_type_specification]
#[verifier::external_body]
pub struct ExPathBuf(std::path::PathBuf);

/// `Clone` of a `std::path::PathBuf`: the copy is the same path.
pub assume_specification[ <std::path::PathBuf as Clone>::clone ](path: &PathBuf) -> (r: PathBuf)
    ensures
        r == *path,
;

/// What the file system says of a relative `@source` path under a base
/// directory. Paths come with their components, as bytes.
#[derive(Debug, Clone, PartialEq, Eq)]
pub struct PathProbe {
    /// The `@source` path is absolute.
    pub absolute: bool,
    /// Components of the canonical base directory, if it exists.
    pub base: Option<Vec<Vec<u8>>>,
    /// The canonical target and its components, if it exists.
    pub target: Option<(PathBuf, Vec<Vec<u8>>)>,
}

/// Components, in mathematical values.
pub open spec fn components(parts: Vec<Vec<u8>>) -> Seq<Seq<u8>> {
    parts@.map_values(|p: Vec<u8>| p@)
}

/// `path` lies in the directory `base`, or is it.
pub open spec fn lies_under(base: Seq<Seq<u8>>, path: Seq<Seq<u8>>) -> bool {
    base.len() <= path.len() && path.take(base.len() as int) == base
}

/// The path that may be read: a relative one whose canonical form lies under the
/// canonical base directory.
pub open spec fn safe_target(probe: PathProbe) -> Option<PathBuf> {
    match (probe.base, probe.target) {
        (Some(base), Some(target)) if !probe.absolute && lies_under(
            components(base),
            components(target.1),
        ) => Some(target.0),
        _ => None,
    }
}

/// A path may be read exactly where it is relative, base and target exist, and the
/// target's components begin with those of the base, one by one.
pub proof fn law_targets_under_the_base_are_safe(probe: PathProbe)
    ensures
        safe_target(probe) is Some <==> !probe.absolute && (probe.base matches Some(base) && (
        probe.target matches Some(target) && base@.len() <= target.1@.len() && forall|i: int|
            0 <= i < base@.len() ==> (#[trigger] base@[i])@ == target.1@[i]@)),
        safe_target(probe) matches Some(path) ==> path == (probe.target->0).0,
{
    if let (Some(base), Some(target)) = (probe.base, probe.target) {
        let b = components(base);
        let p = components(target.1);
        if b.len() <= p.len() {
            let head = p.take(b.len() as int);
            if lies_under(b, p) {
                assert forall|i: int| 0 <= i < base@.len() implies (#[trigger] base@[i])@
                    == target.1@[i]@ by {
                    assert(b[i] == head[i]);
                }
            }
            if forall|i: int| 0 <= i < base@.len() ==> (#[trigger] base@[i])@ == target.1@[i]@ {
                assert(head =~= b) by {
                    assert forall|i: int| 0 <= i < b.len() implies head[i] == b[i] by {
                        assert(base@[i]@ == target.1@[i]@);
                    }
                }
            }
        }
    }
}

fn same_bytes(a: &Vec<u8>, b: &Vec<u8>) -> (r: bool)
    ensures
        r == (a@ == b@),
{
    if a.len() != b.len() {
        return false;
    }
    let mut k: usize = 0;
    while k < a.len()
        invariant
            k <= a@.len(),
            a@.len() == b@.len(),
            forall|x: int| 0 <= x < k ==> a@[x] == b@[x],
        decreases a@.len() - k,
    {
        if a[k] != b[k] {
            return false;
        }
        k = k + 1;
    }
    proof {
        assert(a@ =~= b@);
    }
    true
}

fn is_under(base: &Vec<Vec<u8>>, path: &Vec<Vec<u8>>) -> (r: bool)
    ensures
        r == lies_under(components(*base), components(*path)),
{
    if base.len() > path.len() {
        return false;
    }
    let ghost b = components(*base);
    let ghost p = components(*path);
    let mut k: usize = 0;
    while k < base.len()
        invariant
            b == components(*base),
            p == components(*path),
            k <= base@.len() <= path@.len(),
            forall|x: int| 0 <= x < k ==> #[trigger] p[x] == b[x],
        decreases base@.len() - k,
    {
        proof {
            assert(b[k as int] == base@[k as int]@);
            assert(p[k as int] == path@[k as int]@);
        }
        if !same_bytes(&base[k], &path[k]) {
            proof {
                assert(p.take(b.len() as int)[k as int] != b[k as int]);
            }
            return false;
        }
        k = k + 1;
    }
    proof {
        assert(p.take(b.len() as int) =~= b);
    }
    true
}

/// The file that a relative `@source` path leads to, refusing anything that
/// escapes the base directory.
///
/// An LSP must not be coaxed into reading arbitrary files by a directive in a
/// script: absolute paths are rejected, and the canonical target must stay under
/// the canonical base directory. Returns `None` for any rejected or non-existent
/// path.
pub fn safe_local_path(probe: PathProbe) -> (r: Option<PathBuf>)
    ensures
        r == safe_target(probe),
{
    if probe.absolute {
        return None;
    }
    match (probe.base, probe.target) {
        (Some(base), Some(target)) => {
            if is_under(&base, &target.1) {
                Some(target.0)
            } else {
                None
            }
        },
        _ => None,
    }
}

/// Only relative paths are read, and only those that lead into the base directory.
pub proof fn law_local_paths_stay_under_the_base(probe: PathProbe)
    requires
        safe_target(probe) is Some,
    ensures
        !probe.absolute,
        probe.base matches Some(base) && probe.target matches Some(target) && lies_under(
            components(base),
            components(target.1),
        ) && safe_target(probe) == Some(target.0),
{
}

/// What was found of the library behind an import.
pub enum LibrarySource {
    /// No readable file.
    NotFound,
    /// The file was read but has no syntax tree.
    ParseFailed,
    /// The file at `path` was read and parsed.
    Loaded { path: PathBuf, doc: Document },
}

/// Parse the library that was read from `target`. `target` is what
/// [`safe_local_path`] gave, `contents` what the file held, if it could be read.
pub fn load_library(
    language: &Language,
    target: Option<PathBuf>,
    contents: Option<String>,
) -> (r: LibrarySource)
    ensures
        match (target, contents) {
            (Some(path), Some(text)) => match parsed_model(*language, text@) {
                Some(model) => r matches LibrarySource::Loaded { path: p, doc } && p == path
                    && doc.wf() && doc@ == model,
                None => r is ParseFailed,
            },
            _ => r is NotFound,
        },
{
    match (target, contents) {
        (Some(path), Some(text)) => match Document::parse(language, text.as_str()) {
            Some(doc) => LibrarySource::Loaded { path, doc },
            None => LibrarySource::ParseFailed,
        },
        _ => LibrarySource::NotFound,
    }
}

/// The outcome of resolving one import entry's `/// @source` directive.
#[derive(Debug)]
pub enum ImportResolution {
    /// A local lib file was read + parsed; these exports were recovered. This
    /// can be returned even if the lib had parse ERROR nodes.
    ///
    /// `path` is the canonical absolute path of the resolved lib file.
    Resolved { path: PathBuf, symbols: Vec<ExportedSymbol> },
    /// No `/// @source` directive (the common published-import case). NOT an
    /// error — there is nothing local to read.
    Unresolved,
    /// A `@source` was given but the file could not be read, the path was
    /// absolute, or it escaped the base directory (refused for safety).
    NotFound,
    /// The file was read but could not be parsed.
    ParseFailed,
}

/// What an [`ImportResolution`] says.
pub enum ResolutionFacts {
    Resolved { path: PathBuf, symbols: Seq<ExportFacts> },
    Unresolved,
    NotFound,
    ParseFailed,
}

impl View for ImportResolution {
    type V = ResolutionFacts;

    open spec fn view(&self) -> ResolutionFacts {
        match self {
            ImportResolution::Resolved { path, symbols } => ResolutionFacts::Resolved {
                path: *path,
                symbols: views(symbols@),
            },
            ImportResolution::Unresolved => ResolutionFacts::Unresolved,
            ImportResolution::NotFound => ResolutionFacts::NotFound,
            ImportResolution::ParseFailed => ResolutionFacts::ParseFailed,
        }
    }
}

impl Clone for ImportResolution {
    fn clone(&self) -> (r: Self)
        ensures
            r@ == self@,
    {
        match self {
            ImportResolution::Resolved { path, symbols } => {
                let copies = symbols.clone();
                proof {
                    assert(views(copies@) =~= views(symbols@));
                }
                ImportResolution::Resolved { path: path.clone(), symbols: copies }
            },
            ImportResolution::Unresolved => ImportResolution::Unresolved,
            ImportResolution::NotFound => ImportResolution::NotFound,
            ImportResolution::ParseFailed => ImportResolution::ParseFailed,
        }
    }
}

/// The outcome for an import with the directive `source` and the library `found`.
pub open spec fn resolution_of(
    source: Option<Seq<char>>,
    found: LibrarySource,
) -> ResolutionFacts {
    match (source, found) {
        (None, _) => ResolutionFacts::Unresolved,
        (_, LibrarySource::NotFound) => ResolutionFacts::NotFound,
        (_, LibrarySource::ParseFailed) => ResolutionFacts::ParseFailed,
        (_, LibrarySource::Loaded { path, doc }) => ResolutionFacts::Resolved {
            path,
            symbols: exports_of(doc@),
        },
    }
}

/// An import without a `/// @source` directive is unresolved, whatever was found,
/// and that is the only way to be so.
pub proof fn law_published_imports_are_unresolved(source: Option<Seq<char>>, found: LibrarySource)
    ensures
        resolution_of(source, found) is Unresolved <==> source is None,
{
}

/// An import with a directive is resolved where its library was loaded, to that library's
/// path and exports; one that was not found or could not be parsed stays so.
pub proof fn law_loaded_libraries_are_resolved(source: Seq<char>, found: LibrarySource)
    ensures
        match found {
            LibrarySource::Loaded { path, doc } => resolution_of(Some(source), found)
                == (ResolutionFacts::Resolved { path, symbols: exports_of(doc@) }),
            LibrarySource::NotFound => resolution_of(Some(source), found) is NotFound,
            LibrarySource::ParseFailed => resolution_of(Some(source), found) is ParseFailed,
        },
{
}

/// A library that was loaded is a well-formed document.
pub open spec fn source_wf(found: LibrarySource) -> bool {
    found matches LibrarySource::Loaded { path, doc } ==> doc.wf()
}

/// One import entry paired with its [`ImportResolution`].
#[derive(Debug, Clone)]
pub struct ResolvedImport<'a> {
    pub entry: &'a ImportEntry,
    pub resolution: ImportResolution,
}

/// What a [`ResolvedImport`] says.
pub struct ResolvedFacts {
    pub entry: EntryFacts,
    pub resolution: ResolutionFacts,
}

impl<'a> View for ResolvedImport<'a> {
    type V = ResolvedFacts;

    open spec fn view(&self) -> ResolvedFacts {
        ResolvedFacts { entry: self.entry@, resolution: self.resolution@ }
    }
}

/// The entries that resolved imports belong to.
pub open spec fn entries_of(s: Seq<ResolvedFacts>) -> Seq<EntryFacts> {
    s.map_values(|f: ResolvedFacts| f.entry)
}

/// All resolved imports for a document, in the table's source order.
#[derive(Debug, Clone)]
pub struct ResolvedImports<'a> {
    entries: Vec<ResolvedImport<'a>>,
}

impl<'a> View for ResolvedImports<'a> {
    type V = Seq<ResolvedFacts>;

    closed spec fn view(&self) -> Seq<ResolvedFacts> {
        views(self.entries@)
    }
}

impl<'a> Default for ResolvedImports<'a> {
    fn default() -> (r: Self)
        ensures
            r@ == Seq::<ResolvedFacts>::empty(),
    {
        proof {
            lemma_views_empty::<ResolvedImport<'a>>();
        }
        Self { entries: Vec::new() }
    }
}

impl<'a> ResolvedImports<'a> {
    /// All resolved-import records, in source order.
    pub fn entries(&self) -> (r: &[ResolvedImport<'a>])
        ensures
            views(r@) == self@,
    {
        self.entries.as_slice()
    }

    /// True when there were no imports to resolve.
    pub fn is_empty(&self) -> (r: bool)
        ensures
            r == (self@.len() == 0),
    {
        self.entries.len() == 0
    }

    /// Number of resolved-import records.
    pub fn len(&self) -> (r: usize)
        ensures
            r == self@.len(),
    {
        self.entries.len()
    }

    /// Look up a resolved import by the underlying entry's **explicit** alias
    /// (mirrors [`ImportTable::by_alias`] — aliasless imports are not matched).
    pub fn by_alias(&self, alias: &str) -> (r: Option<&ResolvedImport<'a>>)
        ensures
            match alias_index(entries_of(self@), alias@, 0) {
                Some(i) => r matches Some(found) && found@ == self@[i],
                None => r is None,
            },
    {
        let ghost all = entries_of(self@);
        let mut k: usize = 0;
        while k < self.entries.len()
            invariant
                k <= self.entries@.len(),
                all == entries_of(self@),
                alias_index(all, alias@, 0) == alias_index(all, alias@, k as int),
            decreases self.entries@.len() - k,
        {
            let resolved = &self.entries[k];
            proof {
                assert(self@[k as int] == resolved@);
                assert(all[k as int] == resolved.entry@);
            }
            if let Some(own) = &resolved.entry.alias {
                if str_eq(own.as_str(), alias) {
                    return Some(resolved);
                }
            }
            k = k + 1;
        }
        None
    }
}

/// Resolve one entry. Published imports (no `@source`) are `Unresolved`, whatever
/// was found.
pub fn resolve_entry(entry: &ImportEntry, found: LibrarySource) -> (r: ImportResolution)
    requires
        source_wf(found),
    ensures
        r@ == resolution_of(entry@.source, found),
{
    if entry.source.is_none() {
        return ImportResolution::Unresolved;
    }
    match found {
        LibrarySource::NotFound => ImportResolution::NotFound,
        LibrarySource::ParseFailed => ImportResolution::ParseFailed,
        LibrarySource::Loaded { path, doc } => ImportResolution::Resolved {
            path,
            symbols: exported_symbols(&doc),
        },
    }
}

/// Resolve every entry of `table` against what was found for it, entry by entry.
pub fn resolve_imports<'a>(table: &'a ImportTable, found: Vec<LibrarySource>) -> (r:
    ResolvedImports<'a>)
    requires
        found@.len() == table@.len(),
        forall|i: int| 0 <= i < found@.len() ==> source_wf(#[trigger] found@[i]),
    ensures
        r@.len() == table@.len(),
        forall|i: int|
            0 <= i < table@.len() ==> #[trigger] r@[i] == (ResolvedFacts {
                entry: table@[i],
                resolution: resolution_of(table@[i].source, found@[i]),
            }),
{
    let ghost all = found@;
    let mut found = found;
    let mut out: Vec<ResolvedImport<'a>> = Vec::new();
    let entries = &table.entries;
    let mut k: usize = 0;
    proof {
        assert(all.skip(0) =~= all);
        lemma_views_empty::<ResolvedImport<'a>>();
    }
    while k < entries.len()
        invariant
            views(entries@) == table@,
            entries@.len() == table@.len(),
            k <= entries@.len(),
            all.len() == table@.len(),
            found@ == all.skip(k as int),
            out@.len() == k,
            forall|i: int| 0 <= i < all.len() ==> source_wf(#[trigger] all[i]),
            forall|i: int|
                0 <= i < k ==> (#[trigger] out@[i])@ == (ResolvedFacts {
                    entry: table@[i],
                    resolution: resolution_of(table@[i].source, all[i]),
                }),
        decreases entries@.len() - k,
    {
        let ghost rest = found@;
        let source = found.remove(0);
        let entry = &entries[k];
        proof {
            assert(source == all[k as int]);
            assert(found@ =~= all.skip(k + 1));
            assert(table@[k as int] == entry@);
        }
        let resolution = resolve_entry(entry, source);
        out.push(ResolvedImport { entry, resolution });
        k = k + 1;
    }
    let r = ResolvedImports { entries: out };
    proof {
        assert(forall|i: int| 0 <= i < r@.len() ==> #[trigger] r@[i] == out@[i]@);
    }
    r
}

}
