//! The parser behind the library: everything that calls `tree_sitter`.
//!
//! The grammar itself is a value handed in by the caller. Nothing here says what
//! a grammar makes of a text; the results of the calls have names, and the
//! contracts of the library speak of those names.

use tree_sitter::{Language, Tree};
use vstd::prelude::*;
use vstd::string::*;

use crate::strings::{byte_len, views};
use crate::syntax::{Node, NodeFacts};

verus! {

/// `tree_sitter::Language`, a grammar.
#[verifier::external_type_specification]
#[verifier::external_body]
pub struct ExLanguage(tree_sitter::Language);

/// `tree_sitter::Tree`, a syntax tree as the parser holds it.
#[verifier::external_type_specification]
#[verifier::external_body]
pub struct ExTree(tree_sitter::Tree);

/// The tree that a fresh `tree_sitter::Parser` makes of a text, given the tree of
/// an earlier version of it; `None` where the parser refuses the grammar or gives
/// no tree.
pub uninterp spec fn parsed_tree(
    language: Language,
    text: Seq<char>,
    previous: Option<Tree>,
) -> Option<Tree>;

/// The nodes of a `tree_sitter::Tree`, in preorder, anonymous ones included.
pub uninterp spec fn tree_nodes(tree: Tree) -> Seq<NodeFacts>;

/// The number, in preorder, of the node that
/// `tree_sitter::Node::named_descendant_for_byte_range` of the root gives for the
/// empty range at an offset.
pub uninterp spec fn named_index(tree: Tree, byte: int) -> int;

/// The grammar that a tree was parsed with: what `tree_sitter::Tree::language`
/// gives.
pub uninterp spec fn language_of(tree: Tree) -> Language;

/// The tree that `tree_sitter::Tree::edit` leaves.
pub uninterp spec fn edited_tree(tree: Tree, edit: EditFacts) -> Tree;

/// The replacement of one part of a text, in bytes and in points (row, byte
/// column).
pub struct EditFacts {
    pub start_byte: int,
    pub old_end_byte: int,
    pub new_end_byte: int,
    pub start: (int, int),
    pub old_end: (int, int),
    pub new_end: (int, int),
}

/// The replacement of one part of a text.
pub struct Edit {
    pub start_byte: usize,
    pub old_end_byte: usize,
    pub new_end_byte: usize,
    pub start: (usize, usize),
    pub old_end: (usize, usize),
    pub new_end: (usize, usize),
}

impl View for Edit {
    type V = EditFacts;

    open spec fn view(&self) -> EditFacts {
        EditFacts {
            start_byte: self.start_byte as int,
            old_end_byte: self.old_end_byte as int,
            new_end_byte: self.new_end_byte as int,
            start: (self.start.0 as int, self.start.1 as int),
            old_end: (self.old_end.0 as int, self.old_end.1 as int),
            new_end: (self.new_end.0 as int, self.new_end.1 as int),
        }
    }
}

/// What a reference in an option points to.
pub open spec fn deref<T>(o: Option<&T>) -> Option<T> {
    match o {
        Some(x) => Some(*x),
        None => None,
    }
}

/// `tree_sitter::Parser::parse`, on a new parser for `language`: its result
/// depends on the grammar, the text and the earlier tree alone, and is a tree of
/// that grammar. The parser counts bytes in 32 bits, so longer texts are left
/// out. It takes the symbols of the earlier tree for its own, so a tree of
/// another grammar is left out too.
#[verifier::external_body]
pub(crate) fn parse_tree(language: &Language, text: &str, previous: Option<&Tree>) -> (r: Option<
    Tree,
>)
    requires
        byte_len(text@) <= u32::MAX,
        previous matches Some(tree) ==> language_of(*tree) == *language,
    ensures
        r == parsed_tree(*language, text@, deref(previous)),
        r matches Some(tree) ==> language_of(tree) == *language,
{
    let mut parser = tree_sitter::Parser::new();
    parser.set_language(language).ok()?;
    parser.parse(text, previous)
}

/// `tree_sitter::Tree::edit`, on a tree that is handed over and back, and that
/// stays a tree of its grammar. Offsets and points are 32 bits wide there, so
/// greater ones are left out.
#[verifier::external_body]
pub(crate) fn edit_tree(tree: Tree, edit: &Edit) -> (r: Tree)
    requires
        edit.start_byte <= u32::MAX,
        edit.old_end_byte <= u32::MAX,
        edit.new_end_byte <= u32::MAX,
        edit.start.0 <= u32::MAX && edit.start.1 <= u32::MAX,
        edit.old_end.0 <= u32::MAX && edit.old_end.1 <= u32::MAX,
        edit.new_end.0 <= u32::MAX && edit.new_end.1 <= u32::MAX,
    ensures
        r == edited_tree(tree, edit@),
        language_of(r) == language_of(tree),
{
    let mut tree = tree;
    tree.edit(&tree_sitter::InputEdit {
        start_byte: edit.start_byte,
        old_end_byte: edit.old_end_byte,
        new_end_byte: edit.new_end_byte,
        start_position: tree_sitter::Point::new(edit.start.0, edit.start.1),
        old_end_position: tree_sitter::Point::new(edit.old_end.0, edit.old_end.1),
        new_end_position: tree_sitter::Point::new(edit.new_end.0, edit.new_end.1),
    });
    tree
}

/// `tree_sitter::Tree::language`: the grammar that the tree was parsed with.
#[verifier::external_body]
pub(crate) fn tree_language(tree: &Tree) -> (r: Language)
    ensures
        r == language_of(*tree),
{
    (*tree.language()).clone()
}

/// `Clone` of a `tree_sitter::Tree`: the copy holds the same tree.
#[verifier::external_body]
pub(crate) fn clone_tree(tree: &Tree) -> (r: Tree)
    ensures
        r == *tree,
{
    tree.clone()
}

/// `tree_sitter::Node::descendant_count` of the root: the number of nodes.
#[verifier::external_body]
fn node_count(tree: &Tree) -> (n: usize)
    ensures
        n == tree_nodes(*tree).len(),
{
    tree.root_node().descendant_count()
}

/// `tree_sitter::TreeCursor::goto_descendant`, which goes to the node of that
/// number in preorder; the cursor's field name and depth and the node's own
/// properties are read there.
#[verifier::external_body]
fn node_at(tree: &Tree, i: usize) -> (r: Node)
    requires
        i < tree_nodes(*tree).len(),
    ensures
        r@ == tree_nodes(*tree)[i as int],
{
    let mut cursor = tree.walk();
    cursor.goto_descendant(i);
    let node = cursor.node();
    let (field, depth) = (cursor.field_name().map(str::to_string), cursor.depth() as usize);
    let (start_byte, end_byte) = (node.start_byte(), node.end_byte());
    let (start_row, end_row) = (node.start_position().row, node.end_position().row);
    let (named, missing) = (node.is_named(), node.is_missing());
    let (error, has_error) = (node.is_error(), node.has_error());
    let kind = node.kind().to_string();
    Node { kind, field, named, error, missing, has_error, start_byte, end_byte, start_row, end_row, depth }
}

/// `tree_sitter::Node::named_descendant_for_byte_range` of the root, for the empty
/// range at `byte`: whether the node that it gives is that of the number `i` in
/// preorder, which `tree_sitter::TreeCursor::goto_descendant` goes to. Offsets are 32
/// bits wide there, so greater ones are left out.
#[verifier::external_body]
pub(crate) fn is_named_at(tree: &Tree, byte: usize, i: usize) -> (r: bool)
    requires
        byte <= u32::MAX,
        i < tree_nodes(*tree).len(),
    ensures
        r == (named_index(*tree, byte as int) == i),
{
    let mut cursor = tree.walk();
    cursor.goto_descendant(i);
    tree.root_node().named_descendant_for_byte_range(byte, byte) == Some(cursor.node())
}

/// All nodes of a tree, in preorder.
pub fn read_nodes(tree: &Tree) -> (r: Vec<Node>)
    ensures
        views(r@) == tree_nodes(*tree),
{
    let count: usize = node_count(tree);
    let mut out: Vec<Node> = Vec::new();
    let mut i: usize = 0;
    while i < count
        invariant
            i <= count,
            count == tree_nodes(*tree).len(),
            views(out@) == tree_nodes(*tree).take(i as int),
        decreases count - i,
    {
        let ghost before = out@;
        out.push(node_at(tree, i));
        proof {
            assert(views(out@) =~= views(before).push(out@[i as int]@));
            assert(tree_nodes(*tree).take(i + 1) =~= tree_nodes(*tree).take(i as int).push(
                tree_nodes(*tree)[i as int],
            ));
        }
        i = i + 1;
    }
    proof {
        assert(tree_nodes(*tree).take(count as int) =~= tree_nodes(*tree));
    }
    out
}

}
