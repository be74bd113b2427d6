//! Syntax trees as plain values.
//!
//! A tree is the list of its nodes in preorder, each with its depth. What the
//! parser gives back is read once into this form; everything that walks a tree
//! walks such a list.

use tree_sitter::{Language, Tree};
use vstd::prelude::*;
use vstd::string::*;

use crate::grammar::{language_of, named_index, tree_nodes};
use crate::strings::{at_char, byte_len, opt_view, slice_bytes, str_eq, views};
use crate::text::clamp;

verus! {

/// One node of a syntax tree.
#[derive(Debug, Clone, PartialEq, Eq)]
pub struct Node {
    /// Grammar kind, e.g. `"call"`.
    pub kind: String,
    /// The field under which the node hangs from its parent, if any.
    pub field: Option<String>,
    /// False for the anonymous tokens of the grammar.
    pub named: bool,
    /// An ERROR node.
    pub error: bool,
    /// A token that the parser put in.
    pub missing: bool,
    /// The node is, or holds, an ERROR or missing node.
    pub has_error: bool,
    pub start_byte: usize,
    pub end_byte: usize,
    pub start_row: usize,
    pub end_row: usize,
    /// Number of nodes above this one.
    pub depth: usize,
}

/// What a [`Node`] says, in mathematical values.
pub struct NodeFacts {
    pub kind: Seq<char>,
    pub field: Option<Seq<char>>,
    pub named: bool,
    pub error: bool,
    pub missing: bool,
    pub has_error: bool,
    pub start_byte: int,
    pub end_byte: int,
    pub start_row: int,
    pub end_row: int,
    pub depth: int,
}

impl View for Node {
    type V = NodeFacts;

    open spec fn view(&self) -> NodeFacts {
        NodeFacts {
            kind: self.kind@,
            field: opt_view(self.field),
            named: self.named,
            error: self.error,
            missing: self.missing,
            has_error: self.has_error,
            start_byte: self.start_byte as int,
            end_byte: self.end_byte as int,
            start_row: self.start_row as int,
            end_row: self.end_row as int,
            depth: self.depth as int,
        }
    }
}

/// A text with its syntax tree, and the parser's own tree that the nodes were read
/// from, if they were.
pub struct Model {
    pub text: Seq<char>,
    pub nodes: Seq<NodeFacts>,
    pub tree: Option<Tree>,
}

/// The depths are those of a tree in preorder: one root, first, and each other
/// node at most one level below the node before it.
#[verifier::opaque]
pub open spec fn preorder(nodes: Seq<NodeFacts>) -> bool {
    &&& nodes.len() > 0
    &&& nodes[0].depth == 0
    &&& forall|i: int|
        0 < i < nodes.len() ==> 1 <= (#[trigger] nodes[i]).depth <= nodes[i - 1].depth + 1
}

/// The node covers characters of the text.
#[verifier::opaque]
pub open spec fn covers(text: Seq<char>, node: NodeFacts) -> bool {
    &&& 0 <= node.start_byte <= node.end_byte
    &&& at_char(text, node.start_byte)
    &&& at_char(text, node.end_byte)
    &&& 0 <= node.start_row <= byte_len(text)
    &&& 0 <= node.end_row <= byte_len(text)
}

/// The nodes stand in the order of the text: none starts before an earlier one, nor
/// before the end of an earlier one that it does not lie below.
#[verifier::opaque]
pub open spec fn in_text_order(nodes: Seq<NodeFacts>) -> bool {
    forall|i: int, j: int|
        #![trigger nodes[i], nodes[j]]
        0 <= i < j < nodes.len() ==> nodes[i].start_byte <= nodes[j].start_byte && (end_of(nodes, i)
            <= j ==> nodes[i].end_byte <= nodes[j].start_byte)
}

/// The nodes are a tree over the text, and its offsets fit in 32 bits.
pub open spec fn well_shaped(text: Seq<char>, nodes: Seq<NodeFacts>) -> bool {
    &&& byte_len(text) <= u32::MAX
    &&& nodes.len() > 0
    &&& preorder(nodes)
    &&& in_text_order(nodes)
    &&& forall|i: int| 0 <= i < nodes.len() ==> covers(text, #[trigger] nodes[i])
}

impl Model {
    /// The nodes are a tree over the text, and those of the parser's tree where there
    /// is one.
    pub open spec fn wf(self) -> bool {
        &&& well_shaped(self.text, self.nodes)
        &&& self.tree matches Some(tree) ==> self.nodes == tree_nodes(tree)
    }

    /// A text that the parser's tree `tree` is over.
    pub open spec fn read(text: Seq<char>, tree: Tree) -> Self {
        Model { text, nodes: tree_nodes(tree), tree: Some(tree) }
    }

    /// The grammar that the parser's tree is of.
    pub open spec fn language(self) -> Option<Language> {
        match self.tree {
            Some(tree) => Some(language_of(tree)),
            None => None,
        }
    }

    /// The smallest named node at the offset `byte`: the one that the parser finds in
    /// its tree, the root if that were none of the nodes; without such a tree, the one
    /// that a search over the nodes finds.
    pub open spec fn named_at(self, byte: int) -> int {
        match self.tree {
            Some(tree) => {
                let found = named_index(tree, clamp(byte, u32::MAX as int));
                if 0 <= found < self.nodes.len() {
                    found
                } else {
                    0
                }
            },
            None => named_at(self.nodes, byte),
        }
    }

    /// The source text of node `i`.
    pub open spec fn node_text(self, i: int) -> Seq<char> {
        slice_bytes(self.text, self.nodes[i].start_byte, self.nodes[i].end_byte)
    }
}

// ---------------------------------------------------------------------------
// Relations between nodes
// ---------------------------------------------------------------------------

/// The last node up to `j` that is above depth `depth`.
pub open spec fn above(nodes: Seq<NodeFacts>, depth: int, j: int) -> Option<int>
    decreases j + 1,
{
    if j < 0 {
        None
    } else if nodes[j].depth < depth {
        Some(j)
    } else {
        above(nodes, depth, j - 1)
    }
}

/// The parent of node `i`; the root has none.
pub open spec fn parent_of(nodes: Seq<NodeFacts>, i: int) -> Option<int> {
    above(nodes, nodes[i].depth, i - 1)
}

/// The first node from `j` on that is not below depth `depth`, or the number of
/// nodes.
pub open spec fn below_end(nodes: Seq<NodeFacts>, depth: int, j: int) -> int
    decreases nodes.len() - j,
{
    if j >= nodes.len() {
        nodes.len() as int
    } else if nodes[j].depth <= depth {
        j
    } else {
        below_end(nodes, depth, j + 1)
    }
}

/// One past the last node of the subtree of node `i`.
pub open spec fn end_of(nodes: Seq<NodeFacts>, i: int) -> int {
    below_end(nodes, nodes[i].depth, i + 1)
}

/// Node `i` lies below node `p`, at any depth.
pub open spec fn lies_below(nodes: Seq<NodeFacts>, p: int, i: int) -> bool {
    0 <= p < i < end_of(nodes, p)
}

pub proof fn lemma_below_end(nodes: Seq<NodeFacts>, depth: int, j: int)
    requires
        0 <= j <= nodes.len(),
    ensures
        j <= below_end(nodes, depth, j) <= nodes.len(),
        forall|k: int| j <= k < below_end(nodes, depth, j) ==> (#[trigger] nodes[k]).depth > depth,
        below_end(nodes, depth, j) < nodes.len() ==> nodes[below_end(nodes, depth, j)].depth
            <= depth,
    decreases nodes.len() - j,
{
    if j < nodes.len() && nodes[j].depth > depth {
        lemma_below_end(nodes, depth, j + 1);
    }
}

pub proof fn lemma_above(nodes: Seq<NodeFacts>, depth: int, j: int)
    requires
        j < nodes.len(),
    ensures
        match above(nodes, depth, j) {
            Some(p) => 0 <= p <= j && nodes[p].depth < depth && forall|k: int|
                p < k <= j ==> (#[trigger] nodes[k]).depth >= depth,
            None => forall|k: int| 0 <= k <= j ==> (#[trigger] nodes[k]).depth >= depth,
        },
    decreases j + 1,
{
    if j >= 0 && nodes[j].depth >= depth {
        lemma_above(nodes, depth, j - 1);
    }
}

/// A node lies below its parent and below what its parent lies below, and below no
/// other node.
pub proof fn law_below_parent(nodes: Seq<NodeFacts>, p: int, i: int)
    requires
        0 <= p < nodes.len(),
        0 <= i < nodes.len(),
    ensures
        lies_below(nodes, p, i) <==> (parent_of(nodes, i) matches Some(q) && (p == q || lies_below(
            nodes,
            p,
            q,
        ))),
{
    lemma_above(nodes, nodes[i].depth, i - 1);
    lemma_below_end(nodes, nodes[p].depth, p + 1);
    if let Some(q) = parent_of(nodes, i) {
        lemma_below_end(nodes, nodes[q].depth, q + 1);
        let end = end_of(nodes, q);
        if end <= i {
            assert(nodes[end].depth >= nodes[i].depth);
        }
        if lies_below(nodes, p, q) {
            let outer = end_of(nodes, p);
            if outer <= i {
                assert(nodes[outer].depth >= nodes[i].depth);
                assert(nodes[q].depth > nodes[p].depth);
            }
        }
        if lies_below(nodes, p, i) {
            assert(nodes[i].depth > nodes[p].depth);
            if q < p {
                assert(nodes[p].depth >= nodes[i].depth);
            }
        }
    } else if lies_below(nodes, p, i) {
        assert(nodes[i].depth > nodes[p].depth);
        assert(nodes[p].depth >= nodes[i].depth);
    }
}

/// The subtree of a node ends no later than those of the nodes that it lies below.
pub proof fn lemma_end_below(nodes: Seq<NodeFacts>, p: int, i: int)
    requires
        lies_below(nodes, p, i),
        p < nodes.len(),
    ensures
        i < nodes.len(),
        end_of(nodes, i) <= end_of(nodes, p),
{
    lemma_below_end(nodes, nodes[p].depth, p + 1);
    lemma_below_end(nodes, nodes[i].depth, i + 1);
    let end = end_of(nodes, p);
    if end < end_of(nodes, i) {
        assert(nodes[i].depth > nodes[p].depth);
        assert(nodes[end].depth > nodes[i].depth);
    }
}

/// The siblings from node `j` on that start before `end`.
pub open spec fn siblings(nodes: Seq<NodeFacts>, j: int, end: int) -> Seq<int>
    decreases nodes.len() - j,
    when 0 <= j && end <= nodes.len()
    via siblings_decreases
{
    if j >= end {
        Seq::empty()
    } else {
        seq![j] + siblings(nodes, end_of(nodes, j), end)
    }
}

#[via_fn]
proof fn siblings_decreases(nodes: Seq<NodeFacts>, j: int, end: int) {
    if j < end {
        lemma_below_end(nodes, nodes[j].depth, j + 1);
    }
}

/// The children of node `i`, in order.
pub open spec fn children_of(nodes: Seq<NodeFacts>, i: int) -> Seq<int> {
    siblings(nodes, i + 1, end_of(nodes, i))
}

pub proof fn lemma_siblings(nodes: Seq<NodeFacts>, j: int, end: int)
    requires
        0 <= j <= nodes.len(),
        end <= nodes.len(),
    ensures
        forall|k: int|
            0 <= k < siblings(nodes, j, end).len() ==> j <= #[trigger] siblings(nodes, j, end)[k]
                < end,
    decreases nodes.len() - j,
{
    if j < end {
        lemma_below_end(nodes, nodes[j].depth, j + 1);
        let next = end_of(nodes, j);
        lemma_siblings(nodes, next, end);
        let rest = siblings(nodes, next, end);
        assert forall|k: int| 0 <= k < siblings(nodes, j, end).len() implies j
            <= #[trigger] siblings(nodes, j, end)[k] < end by {
            if k > 0 {
                assert(siblings(nodes, j, end)[k] == rest[k - 1]);
            }
        }
    }
}

/// The children of a node come after it, within its subtree.
pub proof fn lemma_children(nodes: Seq<NodeFacts>, i: int)
    requires
        0 <= i < nodes.len(),
    ensures
        i < end_of(nodes, i) <= nodes.len(),
        forall|k: int|
            0 <= k < children_of(nodes, i).len() ==> i < #[trigger] children_of(nodes, i)[k]
                < end_of(nodes, i),
{
    lemma_below_end(nodes, nodes[i].depth, i + 1);
    lemma_siblings(nodes, i + 1, end_of(nodes, i));
}

/// The first of `list` that hangs from its parent under `field`.
pub open spec fn first_field(nodes: Seq<NodeFacts>, list: Seq<int>, field: Seq<char>) -> Option<int>
    decreases list.len(),
{
    if list.len() == 0 {
        None
    } else if nodes[list[0]].field == Some(field) {
        Some(list[0])
    } else {
        first_field(nodes, list.drop_first(), field)
    }
}

/// The first child of node `i` under `field`.
pub open spec fn field_child(nodes: Seq<NodeFacts>, i: int, field: Seq<char>) -> Option<int> {
    first_field(nodes, children_of(nodes, i), field)
}

/// Those of `list` that hang from their parent under `field`.
pub open spec fn with_field(nodes: Seq<NodeFacts>, list: Seq<int>, field: Seq<char>) -> Seq<int> {
    list.filter(|c: int| nodes[c].field == Some(field))
}

/// All children of node `i` under `field`, in order.
pub open spec fn field_children(nodes: Seq<NodeFacts>, i: int, field: Seq<char>) -> Seq<int> {
    with_field(nodes, children_of(nodes, i), field)
}

/// The named children of node `i`, in order.
pub open spec fn named_children_of(nodes: Seq<NodeFacts>, i: int) -> Seq<int> {
    children_of(nodes, i).filter(|c: int| nodes[c].named)
}

pub proof fn lemma_first_field(nodes: Seq<NodeFacts>, list: Seq<int>, field: Seq<char>)
    ensures
        match first_field(nodes, list, field) {
            Some(c) => list.contains(c) && nodes[c].field == Some(field),
            None => true,
        },
    decreases list.len(),
{
    if list.len() > 0 && nodes[list[0]].field != Some(field) {
        lemma_first_field(nodes, list.drop_first(), field);
        if let Some(c) = first_field(nodes, list.drop_first(), field) {
            let k = choose|k: int| 0 <= k < list.drop_first().len() && list.drop_first()[k] == c;
            assert(list[k + 1] == c);
        }
    }
}

/// A child under a field comes after its parent.
pub proof fn lemma_field_child(nodes: Seq<NodeFacts>, i: int, field: Seq<char>)
    requires
        0 <= i < nodes.len(),
    ensures
        match field_child(nodes, i, field) {
            Some(c) => i < c < nodes.len() && nodes[c].field == Some(field),
            None => true,
        },
{
    lemma_children(nodes, i);
    lemma_first_field(nodes, children_of(nodes, i), field);
}

/// The parent of a node is the last one before it that is less deep; only a node
/// with none such has no parent.
pub proof fn law_parent_is_the_last_above(nodes: Seq<NodeFacts>, i: int, k: int)
    requires
        0 <= i < nodes.len(),
        0 <= k < i,
    ensures
        match parent_of(nodes, i) {
            Some(p) => 0 <= p < i && nodes[p].depth < nodes[i].depth && (k > p ==> nodes[k].depth
                >= nodes[i].depth),
            None => nodes[k].depth >= nodes[i].depth,
        },
{
    lemma_above(nodes, nodes[i].depth, i - 1);
}

/// The subtree of a node holds the nodes behind it that are deeper, up to the first
/// that is not.
pub proof fn law_subtree_is_what_is_deeper(nodes: Seq<NodeFacts>, i: int, k: int)
    requires
        0 <= i < nodes.len(),
        i < k < nodes.len(),
    ensures
        i < end_of(nodes, i) <= nodes.len(),
        k < end_of(nodes, i) ==> nodes[k].depth > nodes[i].depth,
        k == end_of(nodes, i) ==> nodes[k].depth <= nodes[i].depth,
{
    lemma_below_end(nodes, nodes[i].depth, i + 1);
}

proof fn lemma_siblings_found(nodes: Seq<NodeFacts>, i: int, j: int, end: int, c: int)
    requires
        0 <= i < j <= c < end <= nodes.len(),
        forall|x: int| i < x < end ==> (#[trigger] nodes[x]).depth > nodes[i].depth,
        nodes[j].depth == nodes[i].depth + 1,
        nodes[c].depth == nodes[i].depth + 1,
    ensures
        siblings(nodes, j, end).contains(c),
    decreases end - j,
{
    lemma_below_end(nodes, nodes[j].depth, j + 1);
    let next = end_of(nodes, j);
    let list = siblings(nodes, j, end);
    if j == c {
        assert(list[0] == c);
    } else {
        assert(next <= c);
        lemma_siblings_found(nodes, i, next, end, c);
        let rest = siblings(nodes, next, end);
        let k = choose|k: int| 0 <= k < rest.len() && rest[k] == c;
        assert(list[k + 1] == c);
    }
}

/// The children of a node are all the nodes that it is the parent of.
pub proof fn law_children_are_complete(nodes: Seq<NodeFacts>, i: int, c: int)
    requires
        preorder(nodes),
        0 <= i < nodes.len(),
        0 <= c < nodes.len(),
        parent_of(nodes, c) == Some(i),
    ensures
        children_of(nodes, i).contains(c),
{
    reveal(preorder);
    lemma_above(nodes, nodes[c].depth, c - 1);
    lemma_below_end(nodes, nodes[i].depth, i + 1);
    law_below_parent(nodes, i, c);
    let end = end_of(nodes, i);
    assert(nodes[i + 1].depth <= nodes[i].depth + 1);
    assert(nodes[i + 1].depth > nodes[i].depth);
    assert(nodes[c].depth == nodes[i].depth + 1) by {
        if c > i + 1 {
            assert(nodes[i + 1].depth >= nodes[c].depth);
        }
        assert(nodes[c].depth > nodes[i].depth);
    }
    lemma_siblings_found(nodes, i, i + 1, end, c);
}

proof fn lemma_siblings_ascend(nodes: Seq<NodeFacts>, j: int, end: int, x: int, y: int)
    requires
        0 <= j <= nodes.len(),
        end <= nodes.len(),
        0 <= x < y < siblings(nodes, j, end).len(),
    ensures
        siblings(nodes, j, end)[x] < siblings(nodes, j, end)[y],
    decreases nodes.len() - j,
{
    lemma_below_end(nodes, nodes[j].depth, j + 1);
    let next = end_of(nodes, j);
    let rest = siblings(nodes, next, end);
    lemma_siblings(nodes, next, end);
    assert(siblings(nodes, j, end)[y] == rest[y - 1]);
    if x > 0 {
        lemma_siblings_ascend(nodes, next, end, x - 1, y - 1);
        assert(siblings(nodes, j, end)[x] == rest[x - 1]);
    }
}

/// The children of a node come in the order of the tree, each of them once.
pub proof fn law_children_in_order(nodes: Seq<NodeFacts>, i: int, x: int, y: int)
    requires
        0 <= i < nodes.len(),
        0 <= x < y < children_of(nodes, i).len(),
    ensures
        i < children_of(nodes, i)[x] < children_of(nodes, i)[y] < nodes.len(),
{
    lemma_children(nodes, i);
    lemma_siblings_ascend(nodes, i + 1, end_of(nodes, i), x, y);
}

proof fn lemma_first_field_found(nodes: Seq<NodeFacts>, list: Seq<int>, field: Seq<char>, k: int)
    requires
        0 <= k < list.len(),
        nodes[list[k]].field == Some(field),
    ensures
        first_field(nodes, list, field) matches Some(c) && exists|x: int|
            0 <= x <= k && #[trigger] list[x] == c,
    decreases list.len(),
{
    if nodes[list[0]].field == Some(field) {
        assert(list[0] == list[0]);
    } else {
        let rest = list.drop_first();
        assert(rest[k - 1] == list[k]);
        lemma_first_field_found(nodes, rest, field, k - 1);
        let c = first_field(nodes, rest, field)->0;
        let x = choose|x: int| 0 <= x <= k - 1 && #[trigger] rest[x] == c;
        assert(list[x + 1] == c);
    }
}

/// The child under a field is a child of the node that hangs from it under that
/// field, and the first one: where any child does, one is found, and none before it.
pub proof fn law_field_child_is_the_first(nodes: Seq<NodeFacts>, i: int, field: Seq<char>, c: int)
    requires
        preorder(nodes),
        0 <= i < nodes.len(),
        0 <= c < nodes.len(),
        parent_of(nodes, c) == Some(i),
        nodes[c].field == Some(field),
    ensures
        field_child(nodes, i, field) matches Some(f) && i < f <= c && parent_of(nodes, f) == Some(i)
            && nodes[f].field == Some(field),
        field_children(nodes, i, field).contains(c),
{
    let list = children_of(nodes, i);
    law_children_are_complete(nodes, i, c);
    let k = choose|k: int| 0 <= k < list.len() && list[k] == c;
    lemma_first_field_found(nodes, list, field, k);
    lemma_field_child(nodes, i, field);
    let f = field_child(nodes, i, field)->0;
    let x = choose|x: int| 0 <= x <= k && #[trigger] list[x] == f;
    law_parent_of_child(nodes, i, x);
    if x < k {
        law_children_in_order(nodes, i, x, k);
    }
    list.lemma_filter_contains(|d: int| nodes[d].field == Some(field), k);
}

/// What a filter leaves of an ascending list ascends.
pub proof fn lemma_filter_ascends(s: Seq<int>, p: spec_fn(int) -> bool, x: int, y: int)
    requires
        forall|a: int, b: int| 0 <= a < b < s.len() ==> #[trigger] s[a] < #[trigger] s[b],
        0 <= x < y < s.filter(p).len(),
    ensures
        s.filter(p)[x] < s.filter(p)[y],
    decreases s.len(),
{
    reveal(Seq::filter);
    let init = s.drop_last();
    let rest = init.filter(p);
    assert forall|a: int, b: int| 0 <= a < b < init.len() implies #[trigger] init[a]
        < #[trigger] init[b] by {
        assert(s[a] < s[b]);
    }
    if y < rest.len() {
        lemma_filter_ascends(init, p, x, y);
    } else {
        lemma_filter_members(init, p);
        assert(init.contains(rest[x]));
        let a = choose|a: int| 0 <= a < init.len() && init[a] == rest[x];
        assert(s[a] < s[s.len() - 1]);
    }
}

/// The children under a field, and the named children, come in the order of the tree.
pub proof fn law_chosen_children_in_order(
    nodes: Seq<NodeFacts>,
    i: int,
    field: Seq<char>,
    x: int,
    y: int,
)
    requires
        0 <= i < nodes.len(),
        0 <= x < y,
    ensures
        y < field_children(nodes, i, field).len() ==> field_children(nodes, i, field)[x]
            < field_children(nodes, i, field)[y],
        y < named_children_of(nodes, i).len() ==> named_children_of(nodes, i)[x]
            < named_children_of(nodes, i)[y],
{
    let list = children_of(nodes, i);
    assert forall|a: int, b: int| 0 <= a < b < list.len() implies #[trigger] list[a]
        < #[trigger] list[b] by {
        law_children_in_order(nodes, i, a, b);
    }
    if y < field_children(nodes, i, field).len() {
        lemma_filter_ascends(list, |c: int| nodes[c].field == Some(field), x, y);
    }
    if y < named_children_of(nodes, i).len() {
        lemma_filter_ascends(list, |c: int| nodes[c].named, x, y);
    }
}

/// The named children of a node are all its children that are named, and no others.
pub proof fn law_named_children_are_named(nodes: Seq<NodeFacts>, i: int, c: int)
    requires
        preorder(nodes),
        0 <= i < nodes.len(),
        0 <= c < nodes.len(),
    ensures
        named_children_of(nodes, i).contains(c) <==> (nodes[c].named && parent_of(nodes, c) == Some(
            i,
        )),
{
    let list = children_of(nodes, i);
    let p = |d: int| nodes[d].named;
    if nodes[c].named && parent_of(nodes, c) == Some(i) {
        law_children_are_complete(nodes, i, c);
        let k = choose|k: int| 0 <= k < list.len() && list[k] == c;
        list.lemma_filter_contains(p, k);
    }
    if named_children_of(nodes, i).contains(c) {
        let x = choose|x: int| 0 <= x < list.filter(p).len() && list.filter(p)[x] == c;
        list.lemma_filter_pred(p, x);
        lemma_filter_members(list, p);
        assert(list.contains(list.filter(p)[x]));
        let k = choose|k: int| 0 <= k < list.len() && list[k] == c;
        law_parent_of_child(nodes, i, k);
    }
}

/// The children under a field are all its children that hang from it under that field,
/// and no others.
pub proof fn law_field_children_have_the_field(
    nodes: Seq<NodeFacts>,
    i: int,
    field: Seq<char>,
    c: int,
)
    requires
        preorder(nodes),
        0 <= i < nodes.len(),
        0 <= c < nodes.len(),
    ensures
        field_children(nodes, i, field).contains(c) <==> (nodes[c].field == Some(field)
            && parent_of(nodes, c) == Some(i)),
{
    let list = children_of(nodes, i);
    let p = |d: int| nodes[d].field == Some(field);
    if nodes[c].field == Some(field) && parent_of(nodes, c) == Some(i) {
        law_field_child_is_the_first(nodes, i, field, c);
    }
    if field_children(nodes, i, field).contains(c) {
        let x = choose|x: int| 0 <= x < list.filter(p).len() && list.filter(p)[x] == c;
        list.lemma_filter_pred(p, x);
        lemma_filter_members(list, p);
        assert(list.contains(list.filter(p)[x]));
        let k = choose|k: int| 0 <= k < list.len() && list[k] == c;
        law_parent_of_child(nodes, i, k);
    }
}

/// The node reaches the offset `byte`: it ends after it, or there where it is empty.
pub open spec fn reaches(node: NodeFacts, byte: int) -> bool {
    node.end_byte > byte || (node.end_byte == byte && node.start_byte == byte)
}

/// The node that the search for an offset goes on with: the first of `list` that
/// reaches it, unless that one starts after it.
pub open spec fn step_into(nodes: Seq<NodeFacts>, byte: int, list: Seq<int>) -> Option<int> {
    let reaching = list.filter(|c: int| reaches(nodes[c], byte));
    if reaching.len() > 0 && nodes[reaching[0]].start_byte <= byte {
        Some(reaching[0])
    } else {
        None
    }
}

pub proof fn lemma_step_into(nodes: Seq<NodeFacts>, byte: int, list: Seq<int>)
    ensures
        match step_into(nodes, byte, list) {
            Some(c) => list.contains(c) && reaches(nodes[c], byte) && nodes[c].start_byte <= byte,
            None => true,
        },
{
    let p = |c: int| reaches(nodes[c], byte);
    lemma_filter_members(list, p);
    if list.filter(p).len() > 0 {
        list.lemma_filter_pred(p, 0);
    }
}

/// The deepest named node on the way from node `i` down to the offset `byte`,
/// or `best` where there is none.
pub open spec fn descend(nodes: Seq<NodeFacts>, byte: int, i: int, best: int) -> int
    decreases nodes.len() - i,
    when 0 <= i < nodes.len()
    via descend_decreases
{
    match step_into(nodes, byte, children_of(nodes, i)) {
        Some(c) => descend(
            nodes,
            byte,
            c,
            if nodes[c].named {
                c
            } else {
                best
            },
        ),
        None => best,
    }
}

#[via_fn]
proof fn descend_decreases(nodes: Seq<NodeFacts>, byte: int, i: int, best: int) {
    lemma_children(nodes, i);
    lemma_step_into(nodes, byte, children_of(nodes, i));
}

/// The smallest named node at the offset `byte`.
pub open spec fn named_at(nodes: Seq<NodeFacts>, byte: int) -> int {
    descend(nodes, byte, 0, 0)
}

proof fn lemma_descend(nodes: Seq<NodeFacts>, byte: int, i: int, best: int)
    requires
        0 <= i < nodes.len(),
        0 <= best < nodes.len(),
        best == 0 || (nodes[best].named && nodes[best].start_byte <= byte && reaches(
            nodes[best],
            byte,
        )),
    ensures
        ({
            let r = descend(nodes, byte, i, best);
            &&& 0 <= r < nodes.len()
            &&& r == 0 || (nodes[r].named && nodes[r].start_byte <= byte && reaches(nodes[r], byte))
        }),
    decreases nodes.len() - i,
{
    lemma_children(nodes, i);
    lemma_step_into(nodes, byte, children_of(nodes, i));
    if let Some(c) = step_into(nodes, byte, children_of(nodes, i)) {
        let list = children_of(nodes, i);
        let k = choose|k: int| 0 <= k < list.len() && list[k] == c;
        assert(i < list[k] < end_of(nodes, i));
        lemma_descend(
            nodes,
            byte,
            c,
            if nodes[c].named {
                c
            } else {
                best
            },
        );
    }
}

/// What is found at an offset is the root, or a named node that spans the offset.
pub proof fn law_named_at_spans_the_offset(nodes: Seq<NodeFacts>, byte: int)
    requires
        nodes.len() > 0,
    ensures
        ({
            let i = named_at(nodes, byte);
            &&& 0 <= i < nodes.len()
            &&& i == 0 || (nodes[i].named && nodes[i].start_byte <= byte <= nodes[i].end_byte)
        }),
{
    lemma_descend(nodes, byte, 0, 0);
}

proof fn lemma_descend_below(nodes: Seq<NodeFacts>, byte: int, i: int, best: int)
    requires
        0 <= i < nodes.len(),
    ensures
        ({
            let r = descend(nodes, byte, i, best);
            r == best || lies_below(nodes, i, r)
        }),
    decreases nodes.len() - i,
{
    let list = children_of(nodes, i);
    lemma_children(nodes, i);
    lemma_step_into(nodes, byte, list);
    if let Some(c) = step_into(nodes, byte, list) {
        let k = choose|k: int| 0 <= k < list.len() && list[k] == c;
        assert(i < list[k] < end_of(nodes, i));
        lemma_descend_below(
            nodes,
            byte,
            c,
            if nodes[c].named {
                c
            } else {
                best
            },
        );
        lemma_end_below(nodes, i, c);
    }
}

/// The child of node `i` that is `c` or that `c` lies below.
proof fn lemma_child_towards(nodes: Seq<NodeFacts>, i: int, c: int) -> (k: int)
    requires
        preorder(nodes),
        0 <= i < nodes.len(),
        0 <= c < nodes.len(),
        lies_below(nodes, i, c),
    ensures
        0 <= k < children_of(nodes, i).len(),
        c == children_of(nodes, i)[k] || lies_below(nodes, children_of(nodes, i)[k], c),
    decreases c,
{
    law_below_parent(nodes, i, c);
    lemma_above(nodes, nodes[c].depth, c - 1);
    let q = parent_of(nodes, c)->0;
    let list = children_of(nodes, i);
    if q == i {
        law_children_are_complete(nodes, i, c);
        choose|k: int| 0 <= k < list.len() && list[k] == c
    } else {
        let k = lemma_child_towards(nodes, i, q);
        lemma_children(nodes, i);
        law_below_parent(nodes, list[k], c);
        k
    }
}

proof fn lemma_siblings_apart(nodes: Seq<NodeFacts>, j: int, end: int, x: int, y: int)
    requires
        0 <= j <= nodes.len(),
        end <= nodes.len(),
        0 <= x < y < siblings(nodes, j, end).len(),
    ensures
        end_of(nodes, siblings(nodes, j, end)[x]) <= siblings(nodes, j, end)[y],
    decreases nodes.len() - j,
{
    lemma_below_end(nodes, nodes[j].depth, j + 1);
    let next = end_of(nodes, j);
    let rest = siblings(nodes, next, end);
    lemma_siblings(nodes, next, end);
    assert(siblings(nodes, j, end)[y] == rest[y - 1]);
    if x > 0 {
        lemma_siblings_apart(nodes, next, end, x - 1, y - 1);
        assert(siblings(nodes, j, end)[x] == rest[x - 1]);
    }
}

/// Node `c` and all nodes that it lies below hold the offset.
pub open spec fn holds(nodes: Seq<NodeFacts>, c: int, byte: int) -> bool {
    &&& nodes[c].start_byte <= byte < nodes[c].end_byte
    &&& forall|p: int|
        #![trigger nodes[p]]
        lies_below(nodes, p, c) ==> byte < nodes[p].end_byte
}

proof fn lemma_descend_reaches(nodes: Seq<NodeFacts>, byte: int, i: int, best: int, c: int)
    requires
        preorder(nodes),
        in_text_order(nodes),
        forall|x: int|
            0 <= x < nodes.len() ==> (#[trigger] nodes[x]).start_byte < nodes[x].end_byte,
        0 <= i < nodes.len(),
        0 <= c < nodes.len(),
        nodes[c].named,
        holds(nodes, c, byte),
        lies_below(nodes, i, c),
    ensures
        ({
            let r = descend(nodes, byte, i, best);
            r == c || lies_below(nodes, c, r)
        }),
    decreases nodes.len() - i,
{
    let list = children_of(nodes, i);
    lemma_children(nodes, i);
    let k = lemma_child_towards(nodes, i, c);
    let d = list[k];
    assert(i < list[k] < end_of(nodes, i));
    let p = |e: int| reaches(nodes[e], byte);
    assert(byte < nodes[d].end_byte);
    assert(nodes[d].start_byte <= byte) by {
        reveal(in_text_order);
        if d != c {
            assert(nodes[d].start_byte <= nodes[c].start_byte);
        }
    }
    assert forall|x: int| 0 <= x < k implies !p(#[trigger] list[x]) by {
        lemma_siblings_apart(nodes, i + 1, end_of(nodes, i), x, k);
        assert(i < list[x] < end_of(nodes, i));
        let e = list[x];
        assert(end_of(nodes, e) <= d);
        lemma_below_end(nodes, nodes[e].depth, e + 1);
        reveal(in_text_order);
        assert(nodes[e].end_byte <= nodes[d].start_byte);
        assert(nodes[e].start_byte < nodes[e].end_byte);
    }
    lemma_filter_first(list, p, k);
    assert(step_into(nodes, byte, list) == Some(d));
    let next = if nodes[d].named {
        d
    } else {
        best
    };
    if d == c {
        lemma_descend_below(nodes, byte, c, c);
    } else {
        lemma_descend_reaches(nodes, byte, d, next, c);
    }
}

/// What is found at an offset is the innermost: where no node is empty, a named node that
/// holds the offset is what is found, or has it below.
pub proof fn law_named_at_is_the_innermost(nodes: Seq<NodeFacts>, byte: int, c: int)
    requires
        preorder(nodes),
        in_text_order(nodes),
        forall|x: int|
            0 <= x < nodes.len() ==> (#[trigger] nodes[x]).start_byte < nodes[x].end_byte,
        0 < c < nodes.len(),
        nodes[c].named,
        holds(nodes, c, byte),
    ensures
        named_at(nodes, byte) == c || lies_below(nodes, c, named_at(nodes, byte)),
{
    reveal(preorder);
    lemma_below_end(nodes, 0, 1);
    let end = end_of(nodes, 0);
    if end < nodes.len() {
        assert(nodes[end].depth >= 1);
    }
    assert(lies_below(nodes, 0, c));
    lemma_descend_reaches(nodes, byte, 0, 0, c);
}

/// The nearest node of kind `kind` among node `i` and the nodes above it.
pub open spec fn enclosing(nodes: Seq<NodeFacts>, i: int, kind: Seq<char>) -> Option<int>
    decreases i,
    when 0 <= i < nodes.len()
    via enclosing_decreases
{
    if nodes[i].kind == kind {
        Some(i)
    } else {
        match parent_of(nodes, i) {
            Some(p) => enclosing(nodes, p, kind),
            None => None,
        }
    }
}

#[via_fn]
proof fn enclosing_decreases(nodes: Seq<NodeFacts>, i: int, kind: Seq<char>) {
    lemma_above(nodes, nodes[i].depth, i - 1);
}

/// The nearest node of a kind is the node itself or one that it lies below, of that
/// kind, and no node of the kind that it lies below is nearer.
pub proof fn law_enclosing_is_the_innermost(nodes: Seq<NodeFacts>, i: int, kind: Seq<char>, q: int)
    requires
        0 <= i < nodes.len(),
        0 <= q < nodes.len(),
    ensures
        match enclosing(nodes, i, kind) {
            Some(p) => 0 <= p <= i && nodes[p].kind == kind && (p == i || lies_below(nodes, p, i))
                && (nodes[q].kind == kind && (q == i || lies_below(nodes, q, i)) ==> q <= p),
            None => nodes[q].kind == kind ==> q != i && !lies_below(nodes, q, i),
        },
    decreases i,
{
    lemma_above(nodes, nodes[i].depth, i - 1);
    law_below_parent(nodes, q, i);
    if nodes[i].kind != kind {
        if let Some(r) = parent_of(nodes, i) {
            law_enclosing_is_the_innermost(nodes, r, kind, q);
            if let Some(p) = enclosing(nodes, r, kind) {
                law_below_parent(nodes, p, i);
            }
        }
    } else {
        lemma_below_end(nodes, nodes[q].depth, q + 1);
    }
}

/// A node is a child of its parent: the parent is the one node whose children
/// hold it.
pub proof fn law_parent_of_child(nodes: Seq<NodeFacts>, i: int, k: int)
    requires
        preorder(nodes),
        0 <= i < nodes.len(),
        0 <= k < children_of(nodes, i).len(),
    ensures
        parent_of(nodes, children_of(nodes, i)[k]) == Some(i),
        nodes[children_of(nodes, i)[k]].depth == nodes[i].depth + 1,
{
    reveal(preorder);
    lemma_below_end(nodes, nodes[i].depth, i + 1);
    let end = end_of(nodes, i);
    lemma_siblings(nodes, i + 1, end);
    if i + 1 < end {
        assert(nodes[i + 1].depth <= nodes[i].depth + 1);
    }
    lemma_siblings_parent(nodes, i, i + 1, end, k);
}

proof fn lemma_siblings_parent(nodes: Seq<NodeFacts>, i: int, j: int, end: int, k: int)
    requires
        0 <= i < j <= end <= nodes.len(),
        forall|x: int| i < x < end ==> (#[trigger] nodes[x]).depth > nodes[i].depth,
        j < end ==> nodes[j].depth == nodes[i].depth + 1,
        0 <= k < siblings(nodes, j, end).len(),
    ensures
        parent_of(nodes, siblings(nodes, j, end)[k]) == Some(i),
        nodes[siblings(nodes, j, end)[k]].depth == nodes[i].depth + 1,
    decreases end - j,
{
    if j < end {
        lemma_below_end(nodes, nodes[j].depth, j + 1);
        let next = end_of(nodes, j);
        if k == 0 {
            lemma_above(nodes, nodes[j].depth, j - 1);
            assert(nodes[i].depth < nodes[j].depth);
            if let Some(p) = above(nodes, nodes[j].depth, j - 1) {
                if p < i {
                    assert(nodes[i].depth >= nodes[j].depth);
                } else if p > i {
                    assert(nodes[p].depth > nodes[i].depth);
                }
            }
        } else {
            if next < end {
                assert(nodes[next].depth <= nodes[j].depth);
                assert(nodes[next].depth > nodes[i].depth);
                lemma_siblings_parent(nodes, i, next, end, k - 1);
            } else {
                assert(siblings(nodes, next, end).len() == 0) by {
                    lemma_siblings(nodes, next, end);
                }
            }
        }
    }
}

// ---------------------------------------------------------------------------
// Walking
// ---------------------------------------------------------------------------

/// Indices, as integers.
pub open spec fn indices(s: Seq<usize>) -> Seq<int> {
    s.map_values(|x: usize| x as int)
}

pub open spec fn opt_index(o: Option<usize>) -> Option<int> {
    match o {
        Some(i) => Some(i as int),
        None => None,
    }
}

impl Node {
    /// Whether the node is of the grammar kind `kind`.
    pub fn is(&self, kind: &str) -> (r: bool)
        ensures
            r == (self@.kind == kind@),
    {
        str_eq(self.kind.as_str(), kind)
    }

    /// Whether the node hangs from its parent under `field`.
    pub fn under(&self, field: &str) -> (r: bool)
        ensures
            r == (self@.field == Some(field@)),
    {
        match &self.field {
            Some(f) => str_eq(f.as_str(), field),
            None => false,
        }
    }
}

/// One past the last node of the subtree of node `i`.
pub fn subtree_end(nodes: &Vec<Node>, i: usize) -> (e: usize)
    requires
        i < nodes@.len(),
    ensures
        e == end_of(views(nodes@), i as int),
        i < e <= nodes@.len(),
{
    let depth: usize = nodes[i].depth;
    let count: usize = nodes.len();
    let mut j: usize = i + 1;
    while j < count && nodes[j].depth > depth
        invariant
            count == nodes@.len(),
            i < j <= nodes@.len(),
            i < nodes@.len(),
            depth == nodes@[i as int].depth,
            end_of(views(nodes@), i as int) == below_end(views(nodes@), depth as int, j as int),
        decreases nodes@.len() - j,
    {
        j = j + 1;
    }
    j
}

/// The parent of node `i`.
pub fn parent(nodes: &Vec<Node>, i: usize) -> (r: Option<usize>)
    requires
        i < nodes@.len(),
    ensures
        opt_index(r) == parent_of(views(nodes@), i as int),
        r matches Some(p) ==> p < i,
{
    let depth: usize = nodes[i].depth;
    let mut j: usize = i;
    while j > 0
        invariant
            j <= i < nodes@.len(),
            depth == nodes@[i as int].depth,
            parent_of(views(nodes@), i as int) == above(views(nodes@), depth as int, j - 1),
        decreases j,
    {
        if nodes[j - 1].depth < depth {
            return Some(j - 1);
        }
        j = j - 1;
    }
    None
}

/// The children of node `i`, in order.
pub fn children(nodes: &Vec<Node>, i: usize) -> (r: Vec<usize>)
    requires
        i < nodes@.len(),
    ensures
        indices(r@) == children_of(views(nodes@), i as int),
        forall|k: int| 0 <= k < r@.len() ==> i < #[trigger] r@[k] < nodes@.len(),
{
    let ghost ns = views(nodes@);
    let end: usize = subtree_end(nodes, i);
    let mut out: Vec<usize> = Vec::new();
    let mut j: usize = i + 1;
    proof {
        assert(indices(out@) =~= Seq::<int>::empty());
        assert(indices(out@) + siblings(ns, j as int, end as int) =~= children_of(ns, i as int));
    }
    while j < end
        invariant
            ns == views(nodes@),
            i < j <= nodes@.len(),
            end <= nodes@.len(),
            i < nodes@.len(),
            children_of(ns, i as int) == indices(out@) + siblings(ns, j as int, end as int),
            forall|k: int| 0 <= k < out@.len() ==> i < #[trigger] out@[k] < nodes@.len(),
        decreases nodes@.len() - j,
    {
        let ghost before = out@;
        let next: usize = subtree_end(nodes, j);
        out.push(j);
        proof {
            assert(indices(out@) =~= indices(before) + seq![j as int]);
            assert(indices(out@) + siblings(ns, next as int, end as int) =~= indices(before)
                + siblings(ns, j as int, end as int));
        }
        j = next;
    }
    proof {
        assert(siblings(ns, j as int, end as int) =~= Seq::<int>::empty());
        assert(indices(out@) =~= children_of(ns, i as int));
    }
    out
}

/// The first child of node `i` under `field`.
pub fn child_by_field(nodes: &Vec<Node>, i: usize, field: &str) -> (r: Option<usize>)
    requires
        i < nodes@.len(),
    ensures
        opt_index(r) == field_child(views(nodes@), i as int, field@),
        r matches Some(c) ==> i < c < nodes@.len(),
{
    let ghost ns = views(nodes@);
    let list = children(nodes, i);
    let mut k: usize = 0;
    proof {
        assert(indices(list@).skip(0) =~= children_of(ns, i as int));
    }
    while k < list.len()
        invariant
            ns == views(nodes@),
            k <= list@.len(),
            forall|x: int| 0 <= x < list@.len() ==> i < #[trigger] list@[x] < nodes@.len(),
            field_child(ns, i as int, field@) == first_field(
                ns,
                indices(list@).skip(k as int),
                field@,
            ),
        decreases list@.len() - k,
    {
        let c: usize = list[k];
        if nodes[c].under(field) {
            return Some(c);
        }
        proof {
            assert(indices(list@).skip(k as int).drop_first() =~= indices(list@).skip(k + 1));
        }
        k = k + 1;
    }
    None
}

/// A filter, one element further.
pub proof fn lemma_filter_take(s: Seq<int>, p: spec_fn(int) -> bool, k: int)
    requires
        0 <= k < s.len(),
    ensures
        s.take(k + 1).filter(p) == if p(s[k]) {
            s.take(k).filter(p).push(s[k])
        } else {
            s.take(k).filter(p)
        },
{
    reveal(Seq::filter);
    assert(s.take(k + 1).drop_last() =~= s.take(k));
    assert(s.take(k + 1).last() == s[k]);
}

/// What a filter leaves comes from what it was given.
pub proof fn lemma_filter_members(s: Seq<int>, p: spec_fn(int) -> bool)
    ensures
        forall|x: int| 0 <= x < s.filter(p).len() ==> s.contains(#[trigger] s.filter(p)[x]),
    decreases s.len(),
{
    reveal(Seq::filter);
    if s.len() > 0 {
        let init = s.drop_last();
        lemma_filter_members(init, p);
        assert forall|x: int| 0 <= x < s.filter(p).len() implies s.contains(
            #[trigger] s.filter(p)[x],
        ) by {
            if x < init.filter(p).len() {
                assert(s.filter(p)[x] == init.filter(p)[x]);
                let k = choose|k: int| 0 <= k < init.len() && init[k] == init.filter(p)[x];
                assert(s[k] == s.filter(p)[x]);
            } else {
                assert(s[s.len() - 1] == s.filter(p)[x]);
            }
        }
    }
}

/// All children of node `i` under `field`, in order.
pub fn children_by_field(nodes: &Vec<Node>, i: usize, field: &str) -> (r: Vec<usize>)
    requires
        i < nodes@.len(),
    ensures
        indices(r@) == field_children(views(nodes@), i as int, field@),
        forall|k: int| 0 <= k < r@.len() ==> i < #[trigger] r@[k] < nodes@.len(),
{
    let ghost ns = views(nodes@);
    let ghost p = |c: int| ns[c].field == Some(field@);
    let list = children(nodes, i);
    let mut out: Vec<usize> = Vec::new();
    let mut k: usize = 0;
    proof {
        reveal(Seq::filter);
        assert(indices(list@).take(0) =~= Seq::<int>::empty());
        assert(indices(out@) =~= Seq::<int>::empty());
    }
    while k < list.len()
        invariant
            ns == views(nodes@),
            p == (|c: int| ns[c].field == Some(field@)),
            k <= list@.len(),
            forall|x: int| 0 <= x < list@.len() ==> i < #[trigger] list@[x] < nodes@.len(),
            forall|x: int| 0 <= x < out@.len() ==> i < #[trigger] out@[x] < nodes@.len(),
            indices(out@) == indices(list@).take(k as int).filter(p),
        decreases list@.len() - k,
    {
        let c: usize = list[k];
        proof {
            lemma_filter_take(indices(list@), p, k as int);
        }
        if nodes[c].under(field) {
            let ghost before = out@;
            out.push(c);
            proof {
                assert(indices(out@) =~= indices(before).push(c as int));
            }
        }
        k = k + 1;
    }
    proof {
        assert(indices(list@).take(list@.len() as int) =~= indices(list@));
    }
    out
}

/// The named children of node `i`, in order.
pub fn named_children(nodes: &Vec<Node>, i: usize) -> (r: Vec<usize>)
    requires
        i < nodes@.len(),
    ensures
        indices(r@) == named_children_of(views(nodes@), i as int),
        forall|k: int| 0 <= k < r@.len() ==> i < #[trigger] r@[k] < nodes@.len(),
{
    let ghost ns = views(nodes@);
    let ghost p = |c: int| ns[c].named;
    let list = children(nodes, i);
    let mut out: Vec<usize> = Vec::new();
    let mut k: usize = 0;
    proof {
        reveal(Seq::filter);
        assert(indices(list@).take(0) =~= Seq::<int>::empty());
        assert(indices(out@) =~= Seq::<int>::empty());
    }
    while k < list.len()
        invariant
            ns == views(nodes@),
            p == (|c: int| ns[c].named),
            k <= list@.len(),
            forall|x: int| 0 <= x < list@.len() ==> i < #[trigger] list@[x] < nodes@.len(),
            forall|x: int| 0 <= x < out@.len() ==> i < #[trigger] out@[x] < nodes@.len(),
            indices(out@) == indices(list@).take(k as int).filter(p),
        decreases list@.len() - k,
    {
        let c: usize = list[k];
        proof {
            lemma_filter_take(indices(list@), p, k as int);
        }
        if nodes[c].named {
            let ghost before = out@;
            out.push(c);
            proof {
                assert(indices(out@) =~= indices(before).push(c as int));
            }
        }
        k = k + 1;
    }
    proof {
        assert(indices(list@).take(list@.len() as int) =~= indices(list@));
    }
    out
}

/// The first element that `p` holds of is the first that the filter leaves.
proof fn lemma_filter_first(s: Seq<int>, p: spec_fn(int) -> bool, k: int)
    requires
        0 <= k <= s.len(),
        forall|i: int| 0 <= i < k ==> !p(#[trigger] s[i]),
        k < s.len() ==> p(s[k]),
    ensures
        k < s.len() ==> s.filter(p).len() > 0 && s.filter(p)[0] == s[k],
        k == s.len() ==> s.filter(p).len() == 0,
    decreases s.len(),
{
    reveal(Seq::filter);
    if s.len() > 0 {
        let init = s.drop_last();
        if k == s.len() {
            lemma_filter_first(init, p, k - 1);
        } else {
            lemma_filter_first(init, p, k);
        }
    }
}

/// The node that the search for an offset goes on with, among the children of node
/// `at`.
fn next_node(nodes: &Vec<Node>, at: usize, byte: usize) -> (r: Option<usize>)
    requires
        at < nodes@.len(),
    ensures
        opt_index(r) == step_into(
            views(nodes@),
            byte as int,
            children_of(views(nodes@), at as int),
        ),
        r matches Some(c) ==> at < c < nodes@.len(),
{
    let ghost ns = views(nodes@);
    let ghost p = |c: int| reaches(ns[c], byte as int);
    let list = children(nodes, at);
    let ghost all = indices(list@);
    let mut k: usize = 0;
    while k < list.len()
        invariant
            ns == views(nodes@),
            p == (|c: int| reaches(ns[c], byte as int)),
            all == indices(list@),
            all == children_of(ns, at as int),
            k <= list@.len(),
            forall|x: int| 0 <= x < list@.len() ==> at < #[trigger] list@[x] < nodes@.len(),
            forall|x: int| 0 <= x < k ==> !p(#[trigger] all[x]),
        decreases list@.len() - k,
    {
        let c: usize = list[k];
        let start: usize = nodes[c].start_byte;
        let end: usize = nodes[c].end_byte;
        proof {
            assert(all[k as int] == c);
            assert(ns[c as int] == nodes@[c as int]@);
        }
        if end > byte || (end == byte && start == byte) {
            proof {
                lemma_filter_first(all, p, k as int);
            }
            if start <= byte {
                return Some(c);
            }
            return None;
        }
        k = k + 1;
    }
    proof {
        lemma_filter_first(all, p, k as int);
    }
    None
}

/// The smallest named node at the offset `byte`.
pub fn named_descendant(nodes: &Vec<Node>, byte: usize) -> (r: usize)
    requires
        nodes@.len() > 0,
    ensures
        r == named_at(views(nodes@), byte as int),
        r < nodes@.len(),
{
    let ghost ns = views(nodes@);
    let mut at: usize = 0;
    let mut best: usize = 0;
    loop
        invariant
            ns == views(nodes@),
            at < nodes@.len(),
            best < nodes@.len(),
            named_at(ns, byte as int) == descend(ns, byte as int, at as int, best as int),
        decreases nodes@.len() - at,
    {
        match next_node(nodes, at, byte) {
            Some(c) => {
                at = c;
                if nodes[c].named {
                    best = c;
                }
            },
            None => {
                return best;
            },
        }
    }
}

/// The nearest node of kind `kind` among node `i` and the nodes above it.
pub fn enclosing_node(nodes: &Vec<Node>, i: usize, kind: &str) -> (r: Option<usize>)
    requires
        i < nodes@.len(),
    ensures
        opt_index(r) == enclosing(views(nodes@), i as int, kind@),
        r matches Some(n) ==> n <= i,
{
    let mut at: usize = i;
    loop
        invariant
            at <= i < nodes@.len(),
            enclosing(views(nodes@), i as int, kind@) == enclosing(
                views(nodes@),
                at as int,
                kind@,
            ),
        decreases at,
    {
        if nodes[at].is(kind) {
            return Some(at);
        }
        match parent(nodes, at) {
            Some(p) => {
                at = p;
            },
            None => {
                return None;
            },
        }
    }
}

}
