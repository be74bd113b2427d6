//! A parsed document: the source text, its line index and its syntax tree.

use tree_sitter::{Language, Tree};
use vstd::prelude::*;
use vstd::string::*;

use crate::grammar::{
    clone_tree, edit_tree, edited_tree, is_named_at, language_of, named_index, parse_tree,
    parsed_tree, read_nodes, tree_language, tree_nodes, Edit, EditFacts,
};
use crate::strings::{
    at_char, byte_len, byte_slice, lemma_at_char_boundary, lemma_byte_len_add, lemma_byte_len_take,
    lemma_slice_take, opt_view, slice_bytes, str_len, views,
};
use crate::syntax::{
    covers, end_of, in_text_order, named_descendant, preorder, subtree_end, well_shaped, Model,
    Node,
};
use crate::text::{
    breaks, clamp, law_position_counts, law_row_starts_behind_the_break, lemma_line_starts,
    lemma_row, line_starts, offset_of, position_of, row_of, LineIndex,
};

verus! {

/// `text` with the bytes `start..end` replaced by `new`.
pub open spec fn spliced(text: Seq<char>, start: int, end: int, new: Seq<char>) -> Seq<char> {
    slice_bytes(text, 0, start) + new + slice_bytes(text, end, byte_len(text) as int)
}

/// The point (row, byte column) of an offset.
pub open spec fn point_of(text: Seq<char>, byte: int) -> (int, int) {
    let b = clamp(byte, byte_len(text) as int);
    let row = row_of(line_starts(text), b);
    (row, b - line_starts(text)[row])
}

/// The edit that replaces the bytes `start..end` of `text` by `new`.
pub open spec fn edit_of(text: Seq<char>, start: int, end: int, new: Seq<char>) -> EditFacts {
    let after = spliced(text, start, end, new);
    EditFacts {
        start_byte: start,
        old_end_byte: end,
        new_end_byte: start + byte_len(new),
        start: point_of(text, start),
        old_end: point_of(text, end),
        new_end: point_of(after, start + byte_len(new)),
    }
}

/// What parsing a text makes of it: the text with the nodes of the parser's tree,
/// where there is one and it fits the text.
pub open spec fn parsed_model(language: Language, text: Seq<char>) -> Option<Model> {
    match parsed_tree(language, text, None) {
        Some(tree) if byte_len(text) <= u32::MAX && well_shaped(text, tree_nodes(tree)) => Some(
            Model::read(text, tree),
        ),
        _ => None,
    }
}

/// The tree that an edit leads to: the tree of the new text, parsed in the light
/// of the edited old tree, or else the edited old tree itself.
pub open spec fn tree_after(language: Language, text: Seq<char>, edited: Tree) -> Option<Tree> {
    match parsed_tree(language, text, Some(edited)) {
        Some(fresh) if well_shaped(text, tree_nodes(fresh)) => Some(fresh),
        _ => if well_shaped(text, tree_nodes(edited)) {
            Some(edited)
        } else {
            None
        },
    }
}

/// What replacing the bytes `start..end` by `new` leads to; `None` where there is
/// no tree for the new text. Without a tree of the parser's own there is no grammar
/// to parse the new text with.
pub open spec fn after_edit(doc: Model, start: int, end: int, new: Seq<char>) -> Option<Model> {
    match doc.tree {
        Some(tree) => {
            let text = spliced(doc.text, start, end, new);
            let edited = edited_tree(tree, edit_of(doc.text, start, end, new));
            match tree_after(language_of(tree), text, edited) {
                Some(next) => Some(Model::read(text, next)),
                None => None,
            }
        },
        None => None,
    }
}

/// A parsed Pine Script document: the source text plus its syntax tree.
///
/// Construct with [`Document::parse`]. The root node's kind is `source_file` in
/// the Pine grammar.
pub struct Document {
    text: String,
    line_index: LineIndex,
    nodes: Vec<Node>,
    source: Option<Tree>,
}

impl View for Document {
    type V = Model;

    closed spec fn view(&self) -> Model {
        Model { text: self.text@, nodes: views(self.nodes@), tree: self.source }
    }
}

fn starts_on_text(text: &str, node: &Node, len: usize) -> (r: bool)
    requires
        len == byte_len(text@),
    ensures
        r == covers(text@, node@),
{
    proof {
        reveal(covers);
        lemma_at_char_boundary(text@, node.start_byte as int);
        lemma_at_char_boundary(text@, node.end_byte as int);
    }
    node.start_byte <= node.end_byte && text.is_char_boundary(node.start_byte)
        && text.is_char_boundary(node.end_byte) && node.start_row <= len && node.end_row <= len
}

fn stand_in_order(nodes: &Vec<Node>) -> (r: bool)
    ensures
        r == in_text_order(views(nodes@)),
{
    let ghost ns = views(nodes@);
    proof {
        reveal(in_text_order);
    }
    // From the last node to the first: each against what comes next, and against
    // what comes after its subtree.
    let count: usize = nodes.len();
    let mut i: usize = count;
    while i > 0
        invariant
            ns == views(nodes@),
            count == nodes@.len(),
            i <= count,
            forall|a: int, b: int|
                #![trigger ns[a], ns[b]]
                i <= a < b < count ==> ns[a].start_byte <= ns[b].start_byte && (end_of(ns, a) <= b
                    ==> ns[a].end_byte <= ns[b].start_byte),
        decreases i,
    {
        let k: usize = i - 1;
        let end: usize = subtree_end(nodes, k);
        proof {
            assert(ns[k as int] == nodes@[k as int]@);
        }
        if i < count {
            proof {
                assert(ns[i as int] == nodes@[i as int]@);
            }
            if nodes[i].start_byte < nodes[k].start_byte {
                proof {
                    reveal(in_text_order);
                    assert(ns[i as int].start_byte < ns[k as int].start_byte);
                }
                return false;
            }
        }
        if end < count {
            proof {
                assert(ns[end as int] == nodes@[end as int]@);
            }
            if nodes[end].start_byte < nodes[k].end_byte {
                proof {
                    reveal(in_text_order);
                    assert(ns[end as int].start_byte < ns[k as int].end_byte);
                }
                return false;
            }
        }
        proof {
            assert forall|a: int, b: int|
                #![trigger ns[a], ns[b]]
                k <= a < b < count implies ns[a].start_byte <= ns[b].start_byte && (end_of(ns, a)
                <= b ==> ns[a].end_byte <= ns[b].start_byte) by {
                if a == k {
                    if b > i {
                        assert(ns[i as int].start_byte <= ns[b].start_byte);
                    }
                    if end < b {
                        assert(ns[end as int].start_byte <= ns[b].start_byte);
                    }
                }
            }
        }
        i = k;
    }
    true
}

/// Whether the nodes are a tree over the text.
pub fn check_shape(text: &str, nodes: &Vec<Node>) -> (r: bool)
    ensures
        r == well_shaped(text@, views(nodes@)),
{
    let ghost ns = views(nodes@);
    proof {
        reveal(preorder);
    }
    let len: usize = str_len(text);
    if len > u32::MAX as usize || nodes.len() == 0 || nodes[0].depth != 0 {
        proof {
            assert(nodes@.len() > 0 ==> ns[0].depth == nodes@[0].depth);
        }
        return false;
    }
    let mut i: usize = 0;
    while i < nodes.len()
        invariant
            ns == views(nodes@),
            i <= nodes@.len(),
            len == byte_len(text@),
            nodes@.len() > 0,
            forall|k: int| 0 <= k < i ==> covers(text@, #[trigger] ns[k]),
            forall|k: int|
                0 < k < i ==> 1 <= (#[trigger] ns[k]).depth <= ns[k - 1].depth + 1,
        decreases nodes@.len() - i,
    {
        proof {
            assert(ns[i as int] == nodes@[i as int]@);
        }
        if !starts_on_text(text, &nodes[i], len) {
            return false;
        }
        if i > 0 {
            let depth: usize = nodes[i].depth;
            proof {
                assert(ns[i - 1] == nodes@[i - 1]@);
            }
            if depth == 0 || depth - 1 > nodes[i - 1].depth {
                proof {
                    reveal(preorder);
                    assert(!preorder(ns));
                }
                return false;
            }
        }
        i = i + 1;
    }
    stand_in_order(nodes)
}

impl Document {
    /// The line index is that of the text.
    pub closed spec fn indexed(&self) -> bool {
        self.line_index.indexes(self.text@) && self.line_index.wf()
    }

    /// The text has its syntax tree, and the line index is that of the text.
    pub open spec fn wf(&self) -> bool {
        self@.wf() && self.indexed()
    }

    /// A document from a text and the nodes of its syntax tree, in preorder, or
    /// `None` where the nodes are no tree over the text.
    pub fn from_nodes(text: String, nodes: Vec<Node>) -> (r: Option<Self>)
        ensures
            r is Some <==> well_shaped(text@, views(nodes@)),
            r matches Some(doc) ==> doc.wf() && doc@ == (Model {
                text: text@,
                nodes: views(nodes@),
                tree: None,
            }),
    {
        if !check_shape(text.as_str(), &nodes) {
            return None;
        }
        let line_index = LineIndex::new(text.as_str());
        Some(Self { text, line_index, nodes, source: None })
    }

    /// Parse `text` as Pine source, with the grammar `language`.
    ///
    /// Returns `None` only if the grammar fails to load, the parser returns no
    /// tree, or its offsets do not fit the text.
    pub fn parse(language: &Language, text: &str) -> (r: Option<Self>)
        ensures
            opt_view(r) == parsed_model(*language, text@),
            r matches Some(doc) ==> doc.wf() && doc@.language() == Some(*language),
    {
        if str_len(text) > u32::MAX as usize {
            return None;
        }
        match parse_tree(language, text, None) {
            Some(tree) => {
                let nodes = read_nodes(&tree);
                if check_shape(text, &nodes) {
                    let line_index = LineIndex::new(text);
                    Some(Self { text: text.to_owned(), line_index, nodes, source: Some(tree) })
                } else {
                    None
                }
            },
            None => None,
        }
    }

    /// The source text this document was parsed from.
    pub fn text(&self) -> (r: &str)
        ensures
            r@ == self@.text,
    {
        self.text.as_str()
    }

    /// UTF-16-aware byte/position mapping for this document's text.
    pub fn line_index(&self) -> (r: &LineIndex)
        ensures
            self.wf() ==> r.indexes(self@.text) && r.wf(),
    {
        &self.line_index
    }

    /// LSP position (0-based line, UTF-16 char) -> byte offset.
    pub fn offset_at(&self, line: u32, character_utf16: u32) -> (r: usize)
        requires
            self.wf(),
        ensures
            r == offset_of(self@.text, line as int, character_utf16 as int),
            at_char(self@.text, r as int),
            r <= byte_len(self@.text),
    {
        self.line_index.offset_at(self.text.as_str(), line, character_utf16)
    }

    /// Byte offset -> LSP position (0-based line, UTF-16 char).
    pub fn position_at(&self, offset: usize) -> (r: (u32, u32))
        requires
            self.wf(),
        ensures
            (r.0 as int, r.1 as int) == position_of(self@.text, offset as int),
    {
        self.line_index.position_at(self.text.as_str(), offset)
    }

    /// The nodes of the syntax tree, in preorder.
    pub fn tree(&self) -> (r: &Vec<Node>)
        ensures
            views(r@) == self@.nodes,
    {
        &self.nodes
    }

    /// The root node (kind `source_file`).
    pub fn root(&self) -> (r: &Node)
        requires
            self.wf(),
        ensures
            r@ == self@.nodes[0],
    {
        &self.nodes[0]
    }

    /// True if the syntax tree contains any ERROR or MISSING nodes.
    pub fn has_errors(&self) -> (r: bool)
        requires
            self.wf(),
        ensures
            r == self@.nodes[0].has_error,
    {
        self.nodes[0].has_error
    }

    /// The source text of node `i`.
    pub fn node_text(&self, i: usize) -> (r: &str)
        requires
            self.wf(),
            i < self@.nodes.len(),
        ensures
            r@ == self@.node_text(i as int),
    {
        let node = &self.nodes[i];
        proof {
            reveal(covers);
            assert(covers(self@.text, self@.nodes[i as int]));
            assert(self@.nodes[i as int] == node@);
        }
        byte_slice(self.text.as_str(), node.start_byte, node.end_byte)
    }

    /// The smallest named node at the offset `byte`. The parser is asked where it made
    /// the tree; an offset past its 32 bits counts as the greatest of them.
    pub fn named_node(&self, byte: usize) -> (r: usize)
        requires
            self.wf(),
        ensures
            r == self@.named_at(byte as int),
            r < self@.nodes.len(),
    {
        let tree = match &self.source {
            Some(tree) => tree,
            None => {
                return named_descendant(&self.nodes, byte);
            },
        };
        let at: usize = if byte < u32::MAX as usize {
            byte
        } else {
            u32::MAX as usize
        };
        // Mostly the search over the nodes leads to the same one.
        let guess: usize = named_descendant(&self.nodes, at);
        if is_named_at(tree, at, guess) {
            return guess;
        }
        let count: usize = self.nodes.len();
        let mut i: usize = 0;
        while i < count
            invariant
                self.wf(),
                self@.tree == Some(*tree),
                count == self@.nodes.len(),
                at == clamp(byte as int, u32::MAX as int),
                i <= count,
                !(0 <= named_index(*tree, at as int) < i),
            decreases count - i,
        {
            if is_named_at(tree, at, i) {
                return i;
            }
            i = i + 1;
        }
        0
    }

    /// Apply a single edit — replace the byte range `start_byte..old_end_byte`
    /// with `new_text` — and **incrementally** reparse with the grammar of the
    /// document, reusing the previous tree.
    ///
    /// Where the parser gives no tree for the new text, the edited old tree
    /// stays. Returns `false`, and changes nothing, where that one does not fit
    /// the new text either, or where the document was not parsed but made from
    /// nodes.
    pub fn apply_edit(&mut self, start_byte: usize, old_end_byte: usize, new_text: &str) -> (r:
        bool)
        requires
            old(self).wf(),
            start_byte <= old_end_byte,
            at_char(old(self)@.text, start_byte as int),
            at_char(old(self)@.text, old_end_byte as int),
            byte_len(
                spliced(old(self)@.text, start_byte as int, old_end_byte as int, new_text@),
            ) <= u32::MAX,
        ensures
            final(self).wf(),
            final(self)@.language() == old(self)@.language(),
            match after_edit(
                old(self)@,
                start_byte as int,
                old_end_byte as int,
                new_text@,
            ) {
                Some(next) => r && final(self)@ == next,
                None => !r && final(self)@ == old(self)@,
            },
    {
        let tree = match &self.source {
            Some(tree) => clone_tree(tree),
            None => {
                return false;
            },
        };
        let ghost t = self.text@;
        let ghost new = new_text@;
        let len: usize = str_len(self.text.as_str());
        proof {
            lemma_splice_len(t, start_byte as int, old_end_byte as int, new);
        }
        let mut text = byte_slice(self.text.as_str(), 0, start_byte).to_owned();
        text.append(new_text);
        text.append(byte_slice(self.text.as_str(), old_end_byte, len));
        let new_end_byte: usize = start_byte + str_len(new_text);
        let new_index = LineIndex::new(text.as_str());
        let start = self.line_index.byte_to_point(start_byte);
        let old_end = self.line_index.byte_to_point(old_end_byte);
        let new_end = new_index.byte_to_point(new_end_byte);
        proof {
            lemma_point_bound(t, start_byte as int);
            lemma_point_bound(t, old_end_byte as int);
            lemma_point_bound(text@, new_end_byte as int);
        }
        let edit = Edit { start_byte, old_end_byte, new_end_byte, start, old_end, new_end };
        proof {
            assert(edit@ == edit_of(t, start_byte as int, old_end_byte as int, new));
        }
        let language = tree_language(&tree);
        let edited = edit_tree(tree, &edit);
        if let Some(fresh) = parse_tree(&language, text.as_str(), Some(&edited)) {
            let nodes = read_nodes(&fresh);
            if check_shape(text.as_str(), &nodes) {
                *self = Self { text, line_index: new_index, nodes, source: Some(fresh) };
                return true;
            }
        }
        let nodes = read_nodes(&edited);
        if check_shape(text.as_str(), &nodes) {
            *self = Self { text, line_index: new_index, nodes, source: Some(edited) };
            return true;
        }
        false
    }
}

/// The length of a text after an edit.
pub proof fn lemma_splice_len(t: Seq<char>, start: int, end: int, new: Seq<char>)
    requires
        start <= end,
        at_char(t, start),
        at_char(t, end),
    ensures
        byte_len(spliced(t, start, end, new)) == byte_len(t) - (end - start) + byte_len(new),
        0 <= start,
        end <= byte_len(t),
        at_char(t, 0),
        at_char(t, byte_len(t) as int),
{
    let i = choose|k: int| 0 <= k <= t.len() && start == #[trigger] byte_len(t.take(k));
    let j = choose|k: int| 0 <= k <= t.len() && end == #[trigger] byte_len(t.take(k));
    let n = t.len() as int;
    assert(t.take(n) =~= t);
    assert(t.take(0) =~= Seq::<char>::empty());
    assert(byte_len(t.take(0)) == 0);
    assert(byte_len(t) == byte_len(t.take(n)));
    lemma_slice_take(t, 0, i);
    lemma_slice_take(t, j, n);
    lemma_byte_len_take(t, 0, i);
    lemma_byte_len_take(t, j, n);
    lemma_byte_len_add(slice_bytes(t, 0, start), new);
    lemma_byte_len_add(slice_bytes(t, 0, start) + new, slice_bytes(t, end, byte_len(t) as int));
}

proof fn lemma_point_bound(t: Seq<char>, byte: int)
    requires
        0 <= byte,
    ensures
        0 <= point_of(t, byte).0 <= byte_len(t),
        0 <= point_of(t, byte).1 <= byte_len(t),
{
    lemma_line_starts(t);
    let starts = line_starts(t);
    lemma_row(starts, clamp(byte, byte_len(t) as int), starts.len() - 1);
}

/// An edit leaves a document of the new text, whose lines, offsets and positions are
/// those of the new text parsed afresh.
pub proof fn law_edit_positions(
    doc: Model,
    start: int,
    end: int,
    new: Seq<char>,
    line: int,
    character: int,
    offset: int,
)
    requires
        doc.language() is Some,
        after_edit(doc, start, end, new) is Some,
        parsed_model(doc.language()->0, spliced(doc.text, start, end, new)) is Some,
    ensures
        ({
            let after = after_edit(doc, start, end, new)->0.text;
            let text = spliced(doc.text, start, end, new);
            let fresh = parsed_model(doc.language()->0, text)->0.text;
            &&& after == text
            &&& line_starts(after) == line_starts(fresh)
            &&& offset_of(after, line, character) == offset_of(fresh, line, character)
            &&& position_of(after, offset) == position_of(fresh, offset)
        }),
{
}

/// After an edit a document has the tree that the parser makes of the new text in the
/// light of the old one, where that fits the text.
pub proof fn law_edit_takes_the_fresh_tree(
    doc: Model,
    start: int,
    end: int,
    new: Seq<char>,
    tree: Tree,
    fresh: Tree,
)
    requires
        doc.tree == Some(tree),
        parsed_tree(
            language_of(tree),
            spliced(doc.text, start, end, new),
            Some(edited_tree(tree, edit_of(doc.text, start, end, new))),
        ) == Some(fresh),
        well_shaped(spliced(doc.text, start, end, new), tree_nodes(fresh)),
    ensures
        after_edit(doc, start, end, new) matches Some(next) && next.text == spliced(
            doc.text,
            start,
            end,
            new,
        ) && next.tree == Some(fresh) && next.nodes == tree_nodes(fresh),
{
}

/// A text that the parser has a tree for that fits it is a document of that text and
/// tree.
pub proof fn law_parsing_keeps_the_text(language: Language, text: Seq<char>, tree: Tree)
    requires
        byte_len(text) <= u32::MAX,
        parsed_tree(language, text, None) == Some(tree),
        well_shaped(text, tree_nodes(tree)),
    ensures
        parsed_model(language, text) matches Some(m) && m.text == text && m.tree == Some(tree)
            && m.nodes == tree_nodes(tree) && m.wf(),
{
}

/// An edit replaces the part between its ends, and leaves what stands before and behind
/// it.
pub proof fn law_splice_replaces_the_part(
    before: Seq<char>,
    part: Seq<char>,
    behind: Seq<char>,
    new: Seq<char>,
)
    ensures
        spliced(
            before + part + behind,
            byte_len(before) as int,
            byte_len(before + part) as int,
            new,
        ) == before + new + behind,
{
    let t = before + part + behind;
    let i = before.len() as int;
    let j = i + part.len();
    assert(t.take(i) =~= before);
    assert(t.take(j) =~= before + part);
    assert(t.skip(j) =~= behind);
    lemma_splice_chars(t, i, j, new);
}

/// A point counts: its row is the number of line breaks before the offset, its column the
/// bytes since the last of them.
pub proof fn law_point_counts(before: Seq<char>, l: Seq<char>, behind: Seq<char>)
    requires
        before.len() > 0 ==> before.last() == '\n',
        !l.contains('\n'),
    ensures
        point_of(before + l + behind, byte_len(before + l) as int) == (
            breaks(before),
            byte_len(l) as int,
        ),
{
    let t = before + l + behind;
    law_position_counts(before, l, behind);
    law_row_starts_behind_the_break(before, l, behind);
    assert(t =~= (before + l) + behind);
    lemma_byte_len_add(before + l, behind);
    lemma_byte_len_add(before, l);
}

/// What the parser is told of an edit: where it starts, where the part that goes ended
/// before and where the new part ends after, each as an offset and as a point of the text
/// before or after.
pub proof fn law_edit_tells_its_ends(
    before: Seq<char>,
    part: Seq<char>,
    behind: Seq<char>,
    new: Seq<char>,
)
    ensures
        ({
            let text = before + part + behind;
            let start = byte_len(before) as int;
            let end = byte_len(before + part) as int;
            let edit = edit_of(text, start, end, new);
            &&& edit.start_byte == start
            &&& edit.old_end_byte == end
            &&& edit.new_end_byte == byte_len(before + new)
            &&& edit.start == point_of(text, start)
            &&& edit.old_end == point_of(text, end)
            &&& edit.new_end == point_of(before + new + behind, byte_len(before + new) as int)
        }),
{
    law_splice_replaces_the_part(before, part, behind, new);
    lemma_byte_len_add(before, new);
}

/// An edit that puts nothing in place of nothing leaves the text as it is.
pub proof fn law_empty_edit(text: Seq<char>, at: int)
    requires
        at_char(text, at),
    ensures
        spliced(text, at, at, Seq::empty()) == text,
{
    let i = choose|k: int| 0 <= k <= text.len() && at == #[trigger] byte_len(text.take(k));
    let n = text.len() as int;
    assert(text.take(n) =~= text);
    assert(text.take(0) =~= Seq::<char>::empty());
    lemma_slice_take(text, 0, i);
    lemma_slice_take(text, i, n);
    assert(spliced(text, at, at, Seq::empty()) =~= text);
}

/// What an edit put in is what stands at its place afterwards, and putting the
/// old part back restores the text.
pub proof fn law_edit_undone(text: Seq<char>, start: int, end: int, new: Seq<char>)
    requires
        start <= end,
        at_char(text, start),
        at_char(text, end),
    ensures
        slice_bytes(spliced(text, start, end, new), start, (start + byte_len(new)) as int) == new,
        spliced(
            spliced(text, start, end, new),
            start,
            (start + byte_len(new)) as int,
            slice_bytes(text, start, end),
        ) == text,
{
    let i = choose|k: int| 0 <= k <= text.len() && start == #[trigger] byte_len(text.take(k));
    let j = choose|k: int| 0 <= k <= text.len() && end == #[trigger] byte_len(text.take(k));
    if j < i {
        lemma_byte_len_take(text, j, i);
    }
    lemma_splice_chars(text, i, j, new);
    let after = text.take(i) + new + text.skip(j);
    let part = text.subrange(i, j);
    lemma_slice_take(text, i, j);
    assert(after.take(i) =~= text.take(i));
    assert(after.take(i + new.len()) =~= text.take(i) + new);
    lemma_byte_len_add(text.take(i), new);
    lemma_slice_take(after, i, i + new.len());
    assert(after.subrange(i, i + new.len()) =~= new);
    lemma_splice_chars(after, i, i + new.len(), part);
    assert(after.take(i) + part + after.skip(i + new.len()) =~= text);
}

/// A splice at characters, in characters.
proof fn lemma_splice_chars(t: Seq<char>, i: int, j: int, new: Seq<char>)
    requires
        0 <= i <= j <= t.len(),
    ensures
        spliced(t, byte_len(t.take(i)) as int, byte_len(t.take(j)) as int, new) == t.take(i) + new
            + t.skip(j),
{
    let n = t.len() as int;
    assert(t.take(n) =~= t);
    assert(t.take(0) =~= Seq::<char>::empty());
    lemma_slice_take(t, 0, i);
    lemma_slice_take(t, j, n);
    assert(t.subrange(0, i) =~= t.take(i));
    assert(t.subrange(j, n) =~= t.skip(j));
}

}
