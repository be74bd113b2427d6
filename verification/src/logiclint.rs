//! Logic-lint: heuristic best-practice warnings (repainting/lookahead,
//! future-leak, ...). These are NOT compile errors, but they catch the
//! correctness pitfalls that make Pine strategies look better in hindsight than
//! live.

use vstd::prelude::*;
use vstd::string::*;

use crate::check::{DiagFacts, Diagnostic, Severity};
use crate::document::Document;
use crate::strings::{
    concat3, is_space, law_trimming_takes_white_space, lemma_views_push, skip_space, str_eq,
    to_chars, trim_start, views,
};
use crate::symbols::{call_name, called_name, dotted_name, dotted_of};
use crate::syntax::{
    child_by_field, children_by_field, children_of, end_of, field_child, field_children, indices,
    law_chosen_children_in_order, law_field_children_have_the_field, law_parent_of_child,
    lemma_below_end, lemma_children, lemma_field_child, lemma_filter_members, lemma_filter_take,
    lemma_first_field, lies_below, named_children, named_children_of, opt_index, parent, parent_of, subtree_end,
    Model, Node,
};

verus! {

// ---------------------------------------------------------------------------
// Calls that change with the bars they are evaluated on
// ---------------------------------------------------------------------------

/// `ta.*` accumulator / moving-average / lookback functions whose internal state
/// depends on being evaluated on *every* bar. The cross/rising/falling family is
/// not among them: those are idiomatically (and safely) used as conditions.
pub open spec fn is_stateful(name: Seq<char>) -> bool {
    ||| name == "ta.sma"@
    ||| name == "ta.ema"@
    ||| name == "ta.rma"@
    ||| name == "ta.wma"@
    ||| name == "ta.vwma"@
    ||| name == "ta.hma"@
    ||| name == "ta.alma"@
    ||| name == "ta.swma"@
    ||| name == "ta.linreg"@
    ||| name == "ta.rsi"@
    ||| name == "ta.atr"@
    ||| name == "ta.tr"@
    ||| name == "ta.cci"@
    ||| name == "ta.mfi"@
    ||| name == "ta.cmo"@
    ||| name == "ta.cog"@
    ||| name == "ta.mom"@
    ||| name == "ta.roc"@
    ||| name == "ta.stdev"@
    ||| name == "ta.dev"@
    ||| name == "ta.variance"@
    ||| name == "ta.highest"@
    ||| name == "ta.lowest"@
    ||| name == "ta.highestbars"@
    ||| name == "ta.lowestbars"@
    ||| name == "ta.barssince"@
    ||| name == "ta.valuewhen"@
    ||| name == "ta.cum"@
    ||| name == "ta.change"@
    ||| name == "ta.percentrank"@
    ||| name == "ta.median"@
    ||| name == "ta.mode"@
    ||| name == "ta.range"@
    ||| name == "ta.bb"@
    ||| name == "ta.bbw"@
    ||| name == "ta.kc"@
    ||| name == "ta.kcw"@
    ||| name == "ta.macd"@
    ||| name == "ta.dmi"@
    ||| name == "ta.sar"@
    ||| name == "ta.supertrend"@
    ||| name == "ta.wpr"@
    ||| name == "ta.correlation"@
}

fn is_stateful_ta(name: &str) -> (r: bool)
    ensures
        r == is_stateful(name@),
{
    str_eq(name, "ta.sma") || str_eq(name, "ta.ema") || str_eq(name, "ta.rma") || str_eq(
        name,
        "ta.wma",
    ) || str_eq(name, "ta.vwma") || str_eq(name, "ta.hma") || str_eq(name, "ta.alma") || str_eq(
        name,
        "ta.swma",
    ) || str_eq(name, "ta.linreg") || str_eq(name, "ta.rsi") || str_eq(name, "ta.atr") || str_eq(
        name,
        "ta.tr",
    ) || str_eq(name, "ta.cci") || str_eq(name, "ta.mfi") || str_eq(name, "ta.cmo") || str_eq(
        name,
        "ta.cog",
    ) || str_eq(name, "ta.mom") || str_eq(name, "ta.roc") || str_eq(name, "ta.stdev") || str_eq(
        name,
        "ta.dev",
    ) || str_eq(name, "ta.variance") || str_eq(name, "ta.highest") || str_eq(name, "ta.lowest")
        || str_eq(name, "ta.highestbars") || str_eq(name, "ta.lowestbars") || str_eq(
        name,
        "ta.barssince",
    ) || str_eq(name, "ta.valuewhen") || str_eq(name, "ta.cum") || str_eq(name, "ta.change")
        || str_eq(name, "ta.percentrank") || str_eq(name, "ta.median") || str_eq(name, "ta.mode")
        || str_eq(name, "ta.range") || str_eq(name, "ta.bb") || str_eq(name, "ta.bbw") || str_eq(
        name,
        "ta.kc",
    ) || str_eq(name, "ta.kcw") || str_eq(name, "ta.macd") || str_eq(name, "ta.dmi") || str_eq(
        name,
        "ta.sar",
    ) || str_eq(name, "ta.supertrend") || str_eq(name, "ta.wpr") || str_eq(name, "ta.correlation")
}

/// The kinds of nodes whose body is not evaluated on every bar.
pub open spec fn is_conditional(kind: Seq<char>) -> bool {
    ||| kind == "if_statement"@
    ||| kind == "for_statement"@
    ||| kind == "for_in_statement"@
    ||| kind == "while_statement"@
}

fn is_conditional_node(node: &Node) -> (r: bool)
    ensures
        r == is_conditional(node@.kind),
{
    node.is("if_statement") || node.is("for_statement") || node.is("for_in_statement") || node.is(
        "while_statement",
    )
}

/// The body of a conditional: an `if` has it under `consequence`, a loop under
/// `body`. The condition is no part of it.
pub open spec fn body_of(m: Model, i: int) -> Option<int> {
    match field_child(m.nodes, i, "consequence"@) {
        Some(b) => Some(b),
        None => field_child(m.nodes, i, "body"@),
    }
}

/// The report on node `i`, where it is a call of a stateful function.
pub open spec fn stateful_at(m: Model, i: int) -> Seq<DiagFacts> {
    match call_name(m, i) {
        Some(name) if is_stateful(name) => seq![
            DiagFacts {
                start_byte: m.nodes[i].start_byte,
                end_byte: m.nodes[i].end_byte,
                severity: Severity::Warning,
                code: "ta-conditional"@,
                message: "`"@ + name
                    + "` is stateful and should be called on every bar; calling it only inside a conditional can make its series inconsistent"@,
            },
        ],
        _ => Seq::empty(),
    }
}

/// The nodes from `j` on, before `end`, that stand in no conditional that starts
/// there.
pub open spec fn direct_nodes(m: Model, j: int, end: int) -> Seq<int>
    decreases m.nodes.len() - j,
    when 0 <= j && end <= m.nodes.len()
    via direct_nodes_decreases
{
    if j >= end {
        Seq::empty()
    } else if is_conditional(m.nodes[j].kind) {
        direct_nodes(m, end_of(m.nodes, j), end)
    } else {
        seq![j] + direct_nodes(m, j + 1, end)
    }
}

#[via_fn]
proof fn direct_nodes_decreases(m: Model, j: int, end: int) {
    if j < end {
        lemma_below_end(m.nodes, m.nodes[j].depth, j + 1);
    }
}

/// The nodes of a body that stand in no conditional inside it: the body itself
/// and what hangs below it.
pub open spec fn body_nodes(m: Model, body: int) -> Seq<int> {
    seq![body] + direct_nodes(m, body + 1, end_of(m.nodes, body))
}

/// The reports on the first `k` nodes of a list.
pub open spec fn stateful_upto(m: Model, list: Seq<int>, k: int) -> Seq<DiagFacts>
    decreases k,
{
    if k <= 0 {
        Seq::empty()
    } else {
        stateful_upto(m, list, k - 1) + stateful_at(m, list[k - 1])
    }
}

/// The reports on the stateful calls directly in the body of conditional `i`.
pub open spec fn conditional_diags(m: Model, i: int) -> Seq<DiagFacts> {
    match body_of(m, i) {
        Some(body) => stateful_upto(m, body_nodes(m, body), body_nodes(m, body).len() as int),
        None => Seq::empty(),
    }
}

// ---------------------------------------------------------------------------
// The other checks on single nodes
// ---------------------------------------------------------------------------

pub open spec fn node_diag(
    m: Model,
    i: int,
    severity: Severity,
    code: Seq<char>,
    message: Seq<char>,
) -> DiagFacts {
    DiagFacts {
        start_byte: m.nodes[i].start_byte,
        end_byte: m.nodes[i].end_byte,
        severity,
        code,
        message,
    }
}

/// `x := x`, with the plain operator and a bare identifier on both sides.
pub open spec fn is_self_assignment(m: Model, i: int) -> bool {
    match (
        field_child(m.nodes, i, "operator"@),
        field_child(m.nodes, i, "variable"@),
        field_child(m.nodes, i, "value"@),
    ) {
        (Some(operator), Some(variable), Some(value)) => {
            &&& m.node_text(operator) == ":="@
            &&& m.nodes[variable].kind == "identifier"@
            &&& m.nodes[value].kind == "identifier"@
            &&& m.node_text(variable) == m.node_text(value)
        },
        _ => false,
    }
}

pub open spec fn self_assignment_diags(m: Model, i: int) -> Seq<DiagFacts> {
    if is_self_assignment(m, i) {
        let name = m.node_text(field_child(m.nodes, i, "variable"@)->0);
        seq![
            node_diag(
                m,
                i,
                Severity::Warning,
                "self-assignment"@,
                "Self-assignment `"@ + name + " := "@ + name + "` has no effect"@,
            ),
        ]
    } else {
        Seq::empty()
    }
}

/// Parameter `k` of a list repeats the name of an earlier one.
pub open spec fn repeats(m: Model, ids: Seq<int>, k: int) -> bool {
    &&& m.nodes[ids[k]].kind == "identifier"@
    &&& exists|j: int|
        #![trigger ids[j]]
        0 <= j < k && m.nodes[ids[j]].kind == "identifier"@ && m.node_text(ids[j]) == m.node_text(
            ids[k],
        )
}

/// One report, as an error, for each of the first `k` parameters that repeats an
/// earlier name.
pub open spec fn duplicates_upto(m: Model, ids: Seq<int>, k: int) -> Seq<DiagFacts>
    decreases k,
{
    if k <= 0 {
        Seq::empty()
    } else if repeats(m, ids, k - 1) {
        duplicates_upto(m, ids, k - 1).push(
            node_diag(
                m,
                ids[k - 1],
                Severity::Error,
                "duplicate-parameter"@,
                "Duplicate parameter `"@ + m.node_text(ids[k - 1]) + "` in function definition"@,
            ),
        )
    } else {
        duplicates_upto(m, ids, k - 1)
    }
}

pub open spec fn duplicate_diags(m: Model, i: int) -> Seq<DiagFacts> {
    let ids = field_children(m.nodes, i, "argument"@);
    duplicates_upto(m, ids, ids.len() as int)
}

/// `na(na(..))`: a call of `na` whose first argument is a call of `na`.
pub open spec fn is_redundant_na(m: Model, i: int) -> bool {
    &&& call_name(m, i) == Some("na"@)
    &&& match field_child(m.nodes, i, "arguments"@) {
        Some(args) => {
            let list = named_children_of(m.nodes, args);
            list.len() > 0 && call_name(m, list[0]) == Some("na"@)
        },
        None => false,
    }
}

pub open spec fn redundant_na_diags(m: Model, i: int) -> Seq<DiagFacts> {
    if is_redundant_na(m, i) {
        seq![
            node_diag(
                m,
                i,
                Severity::Warning,
                "redundant-na"@,
                "`na(na(x))` is redundant; the inner `na()` already returns a bool"@,
            ),
        ]
    } else {
        Seq::empty()
    }
}

/// Node `c` is the keyword argument `name`.
pub open spec fn is_keyword_arg(m: Model, c: int, name: Seq<char>) -> bool {
    &&& m.nodes[c].kind == "keyword_argument"@
    &&& match field_child(m.nodes, c, "key"@) {
        Some(key) => m.node_text(key) == name,
        None => false,
    }
}

/// The first keyword argument `name` of a list.
pub open spec fn keyword_arg(m: Model, list: Seq<int>, name: Seq<char>) -> Option<int>
    decreases list.len(),
{
    if list.len() == 0 {
        None
    } else if is_keyword_arg(m, list[0], name) {
        Some(list[0])
    } else {
        keyword_arg(m, list.drop_first(), name)
    }
}

/// The positional arguments of a list.
pub open spec fn positional_args(m: Model, list: Seq<int>) -> Seq<int> {
    list.filter(|c: int| m.nodes[c].kind != "keyword_argument"@)
}

/// The value of the keyword argument `name`, else the positional argument number
/// `pos`, of an argument list.
pub open spec fn arg_of(m: Model, args: int, name: Seq<char>, pos: int) -> Option<int> {
    let list = named_children_of(m.nodes, args);
    match keyword_arg(m, list, name) {
        Some(c) => field_child(m.nodes, c, "value"@),
        None => if pos < positional_args(m, list).len() {
            Some(positional_args(m, list)[pos])
        } else {
            None
        },
    }
}

/// The name or else the text of an expression node.
pub open spec fn spelled(m: Model, i: int) -> Seq<char> {
    match dotted_of(m, i) {
        Some(name) => name,
        None => m.node_text(i),
    }
}

/// The `lookahead` argument of a `request.security` call: by name, or the fifth.
pub open spec fn lookahead_arg(m: Model, i: int) -> Option<int> {
    match call_name(m, i) {
        Some(name) if name == "request.security"@ || name == "request.security_lower_tf"@ => {
            match field_child(m.nodes, i, "arguments"@) {
                Some(args) => arg_of(m, args, "lookahead"@, 4),
                None => None,
            }
        },
        _ => None,
    }
}

/// `request.security(.., lookahead=barmerge.lookahead_on)` repaints.
pub open spec fn lookahead_diags(m: Model, i: int) -> Seq<DiagFacts> {
    match lookahead_arg(m, i) {
        Some(value) if spelled(m, value) == "barmerge.lookahead_on"@ => seq![
            node_diag(
                m,
                value,
                Severity::Warning,
                "lookahead-bias"@,
                "request.security lookahead set to barmerge.lookahead_on; this can introduce lookahead bias"@,
            ),
        ],
        _ => Seq::empty(),
    }
}

/// A negative history offset (`close[-1]`) references future bars.
pub open spec fn is_future_leak(m: Model, i: int) -> bool {
    match field_child(m.nodes, i, "offset"@) {
        Some(offset) => {
            let text = trim_start(m.node_text(offset));
            m.nodes[offset].kind == "unary_operation"@ && text.len() > 0 && text[0] == '-'
        },
        None => false,
    }
}

pub open spec fn future_leak_diags(m: Model, i: int) -> Seq<DiagFacts> {
    if is_future_leak(m, i) {
        seq![
            node_diag(
                m,
                i,
                Severity::Warning,
                "future-leak"@,
                "Negative history reference reads future bars (lookahead)"@,
            ),
        ]
    } else {
        Seq::empty()
    }
}

/// The reports on node `i`.
pub open spec fn lints_at(m: Model, i: int) -> Seq<DiagFacts> {
    let kind = m.nodes[i].kind;
    if kind == "call"@ {
        lookahead_diags(m, i) + redundant_na_diags(m, i)
    } else if kind == "subscript"@ {
        future_leak_diags(m, i)
    } else if kind == "reassignment"@ {
        self_assignment_diags(m, i)
    } else if kind == "function_declaration_statement"@ {
        duplicate_diags(m, i)
    } else if is_conditional(kind) {
        conditional_diags(m, i)
    } else {
        Seq::empty()
    }
}

/// The reports on the first `k` nodes.
pub open spec fn lints_upto(m: Model, k: int) -> Seq<DiagFacts>
    decreases k,
{
    if k <= 0 {
        Seq::empty()
    } else {
        lints_upto(m, k - 1) + lints_at(m, k - 1)
    }
}

// ---------------------------------------------------------------------------
// Strategies
// ---------------------------------------------------------------------------

/// Calls that open a position.
pub open spec fn is_entry(name: Seq<char>) -> bool {
    name == "strategy.entry"@ || name == "strategy.order"@
}

/// Calls that close / reduce a position.
pub open spec fn is_exit(name: Seq<char>) -> bool {
    name == "strategy.exit"@ || name == "strategy.close"@ || name == "strategy.close_all"@
}

/// Calls that place an order.
pub open spec fn is_order_call(name: Seq<char>) -> bool {
    is_entry(name) || is_exit(name)
}

/// Node `i` stands at the top level: `source_file` -> `simple_statement` -> node.
pub open spec fn is_top_level(m: Model, i: int) -> bool {
    match parent_of(m.nodes, i) {
        Some(p) => m.nodes[p].kind == "simple_statement"@ && match parent_of(m.nodes, p) {
            Some(g) => m.nodes[g].kind == "source_file"@,
            None => false,
        },
        None => false,
    }
}

/// What the first `k` nodes say of a strategy.
pub struct ScanFacts {
    /// The first top-level call of `strategy`.
    pub decl: Option<int>,
    pub has_order: bool,
    pub has_import: bool,
    pub entries: int,
    pub has_exit: bool,
}

pub open spec fn scan_upto(m: Model, k: int) -> ScanFacts
    decreases k,
{
    if k <= 0 {
        ScanFacts { decl: None, has_order: false, has_import: false, entries: 0, has_exit: false }
    } else {
        let before = scan_upto(m, k - 1);
        let i = k - 1;
        let called = call_name(m, i);
        ScanFacts {
            decl: if before.decl is None && called == Some("strategy"@) && is_top_level(m, i) {
                Some(i)
            } else {
                before.decl
            },
            has_order: before.has_order || (called matches Some(name) && is_order_call(name)),
            has_import: before.has_import || m.nodes[i].kind == "import"@,
            entries: before.entries + if called matches Some(name) && is_entry(name) {
                1int
            } else {
                0int
            },
            has_exit: before.has_exit || (called matches Some(name) && is_exit(name)),
        }
    }
}

/// The reports on the strategy of a document. A `strategy()` that never places
/// an order is reported, and so is one with a single entry and no exit. Two or
/// more entries may close each other, and an import may place orders that cannot
/// be seen here.
pub open spec fn strategy_diags(m: Model) -> Seq<DiagFacts> {
    let scan = scan_upto(m, m.nodes.len() as int);
    match scan.decl {
        Some(decl) if !scan.has_import => if !scan.has_order {
            seq![
                node_diag(
                    m,
                    decl,
                    Severity::Info,
                    "strategy-no-orders"@,
                    "`strategy()` script never places an order (no strategy.entry/order/exit/close/close_all call found)"@,
                ),
            ]
        } else if scan.entries == 1 && !scan.has_exit {
            seq![
                node_diag(
                    m,
                    decl,
                    Severity::Info,
                    "strategy-no-exit"@,
                    "`strategy.entry` has no matching exit (no strategy.exit/close/close_all call found); positions may never be closed"@,
                ),
            ]
        } else {
            Seq::empty()
        },
        _ => Seq::empty(),
    }
}

/// All reports of the logic-lint.
pub open spec fn lints_of(m: Model) -> Seq<DiagFacts> {
    lints_upto(m, m.nodes.len() as int) + strategy_diags(m)
}

// ---------------------------------------------------------------------------
// Laws
// ---------------------------------------------------------------------------

proof fn lemma_direct_nodes(m: Model, j: int, end: int)
    requires
        0 <= j <= m.nodes.len(),
        end <= m.nodes.len(),
    ensures
        forall|x: int|
            #![trigger direct_nodes(m, j, end)[x]]
            0 <= x < direct_nodes(m, j, end).len() ==> j <= direct_nodes(m, j, end)[x] < end
                && forall|c: int|
                #![trigger m.nodes[c]]
                j <= c <= direct_nodes(m, j, end)[x] && is_conditional(m.nodes[c].kind) ==> end_of(
                    m.nodes,
                    c,
                ) <= direct_nodes(m, j, end)[x],
    decreases m.nodes.len() - j,
{
    if j < end {
        lemma_below_end(m.nodes, m.nodes[j].depth, j + 1);
        let list = direct_nodes(m, j, end);
        if is_conditional(m.nodes[j].kind) {
            let next = end_of(m.nodes, j);
            lemma_direct_nodes(m, next, end);
            assert forall|x: int| #![trigger list[x]] 0 <= x < list.len() implies j <= list[x] < end
                && forall|c: int|
                #![trigger m.nodes[c]]
                j <= c <= list[x] && is_conditional(m.nodes[c].kind) ==> end_of(m.nodes, c)
                    <= list[x] by {
                assert(direct_nodes(m, next, end)[x] == list[x]);
                assert forall|c: int|
                    #![trigger m.nodes[c]]
                    j <= c <= list[x] && is_conditional(m.nodes[c].kind) implies end_of(m.nodes, c)
                    <= list[x] by {
                    if c < next {
                        lemma_nested_end(m, j, c);
                    }
                }
            }
        } else {
            lemma_direct_nodes(m, j + 1, end);
            assert forall|x: int| #![trigger list[x]] 0 <= x < list.len() implies j <= list[x] < end
                && forall|c: int|
                #![trigger m.nodes[c]]
                j <= c <= list[x] && is_conditional(m.nodes[c].kind) ==> end_of(m.nodes, c)
                    <= list[x] by {
                if x > 0 {
                    assert(direct_nodes(m, j + 1, end)[x - 1] == list[x]);
                }
            }
        }
    }
}

/// A node's subtree ends no later than those of the nodes above it.
proof fn lemma_nested_end(m: Model, j: int, c: int)
    requires
        0 <= j <= c < end_of(m.nodes, j),
        j < m.nodes.len(),
    ensures
        c < end_of(m.nodes, c) <= end_of(m.nodes, j) <= m.nodes.len(),
{
    lemma_below_end(m.nodes, m.nodes[j].depth, j + 1);
    lemma_below_end(m.nodes, m.nodes[c].depth, c + 1);
    let e = end_of(m.nodes, j);
    if c > j && e < m.nodes.len() && end_of(m.nodes, c) > e {
        assert(m.nodes[e].depth > m.nodes[c].depth);
        assert(m.nodes[c].depth > m.nodes[j].depth);
    }
}

/// A stateful call is reported by one conditional at most, the innermost that
/// has it in its body: the bodies of two conditionals share no node that both
/// look at, where the bodies are not conditionals themselves.
pub proof fn law_conditional_bodies_are_disjoint(m: Model, c1: int, c2: int, x: int)
    requires
        m.wf(),
        0 <= c1 < c2 < m.nodes.len(),
        is_conditional(m.nodes[c1].kind),
        is_conditional(m.nodes[c2].kind),
        body_of(m, c1) matches Some(b1) && !is_conditional(m.nodes[b1].kind),
        body_of(m, c2) is Some,
    ensures
        !(body_nodes(m, body_of(m, c1)->0).contains(x) && body_nodes(
            m,
            body_of(m, c2)->0,
        ).contains(x)),
{
    let b1 = body_of(m, c1)->0;
    let b2 = body_of(m, c2)->0;
    if body_nodes(m, b1).contains(x) && body_nodes(m, b2).contains(x) {
        lemma_body_child(m, c1);
        lemma_body_child(m, c2);
        lemma_body_nodes(m, b1, x);
        lemma_body_nodes(m, b2, x);
        lemma_nested_end(m, c2, b2);
        assert(c2 < x < end_of(m.nodes, c2));
        if c2 < b1 {
            // The earlier child of `c1` that holds `c2` ends before `b1`.
            lemma_below_end(m.nodes, m.nodes[c1].depth, c1 + 1);
            lemma_below_end(m.nodes, m.nodes[c2].depth, c2 + 1);
            assert(m.nodes[c2].depth > m.nodes[c1].depth);
            assert(m.nodes[b1].depth == m.nodes[c1].depth + 1);
            assert(end_of(m.nodes, c2) <= b1);
        } else if c2 > b1 {
            assert(end_of(m.nodes, c2) <= x) by {
                assert(is_conditional(m.nodes[c2].kind));
            }
        }
    }
}

/// No conditional that starts at `from` or later, and up to `x`, has `x` in its
/// subtree.
pub open spec fn is_direct(m: Model, from: int, x: int) -> bool {
    forall|c: int|
        #![trigger m.nodes[c]]
        from <= c <= x && is_conditional(m.nodes[c].kind) ==> end_of(m.nodes, c) <= x
}

proof fn lemma_direct_found(m: Model, j: int, end: int, x: int)
    requires
        0 <= j <= x < end <= m.nodes.len(),
        is_direct(m, j, x),
    ensures
        direct_nodes(m, j, end).contains(x),
    decreases m.nodes.len() - j,
{
    lemma_below_end(m.nodes, m.nodes[j].depth, j + 1);
    let list = direct_nodes(m, j, end);
    if is_conditional(m.nodes[j].kind) {
        lemma_direct_found(m, end_of(m.nodes, j), end, x);
    } else if x == j {
        assert(list[0] == x);
    } else {
        lemma_direct_found(m, j + 1, end, x);
        let rest = direct_nodes(m, j + 1, end);
        let k = choose|k: int| 0 <= k < rest.len() && rest[k] == x;
        assert(list[k + 1] == x);
    }
}

proof fn lemma_stateful_reported(m: Model, list: Seq<int>, k: int, x: int)
    requires
        0 <= x < k <= list.len(),
        stateful_at(m, list[x]).len() > 0,
    ensures
        stateful_upto(m, list, k).contains(stateful_at(m, list[x])[0]),
    decreases k,
{
    let before = stateful_upto(m, list, k - 1);
    let now = stateful_upto(m, list, k);
    let d = stateful_at(m, list[x])[0];
    if x < k - 1 {
        lemma_stateful_reported(m, list, k - 1, x);
        let i = choose|i: int| 0 <= i < before.len() && before[i] == d;
        assert(now[i] == d);
    } else {
        assert(now[before.len() as int] == d);
    }
}

/// A stateful call in the body of a conditional, and in no other conditional
/// inside that body, is reported by it.
pub proof fn law_direct_calls_are_reported(m: Model, c: int, x: int)
    requires
        m.wf(),
        0 <= c < m.nodes.len(),
        body_of(m, c) matches Some(b) && b <= x < end_of(m.nodes, b) && is_direct(m, b + 1, x),
        call_name(m, x) matches Some(name) && is_stateful(name),
    ensures
        conditional_diags(m, c).contains(stateful_at(m, x)[0]),
{
    let b = body_of(m, c)->0;
    lemma_body_child(m, c);
    lemma_below_end(m.nodes, m.nodes[b].depth, b + 1);
    let end = end_of(m.nodes, b);
    let list = body_nodes(m, b);
    let k = if x == b {
        0int
    } else {
        lemma_direct_found(m, b + 1, end, x);
        let rest = direct_nodes(m, b + 1, end);
        let k = choose|k: int| 0 <= k < rest.len() && rest[k] == x;
        k + 1
    };
    assert(list[k] == x);
    lemma_stateful_reported(m, list, list.len() as int, k);
}

proof fn lemma_body_child(m: Model, i: int)
    requires
        m.wf(),
        0 <= i < m.nodes.len(),
    ensures
        body_of(m, i) matches Some(b) ==> i < b < end_of(m.nodes, i) && m.nodes[b].depth
            == m.nodes[i].depth + 1,
        end_of(m.nodes, i) <= m.nodes.len(),
{
    let list = children_of(m.nodes, i);
    lemma_children(m.nodes, i);
    lemma_first_field(m.nodes, list, "consequence"@);
    lemma_first_field(m.nodes, list, "body"@);
    if let Some(b) = body_of(m, i) {
        let k = choose|k: int| 0 <= k < list.len() && list[k] == b;
        law_parent_of_child(m.nodes, i, k);
    }
}

proof fn lemma_body_nodes(m: Model, b: int, x: int)
    requires
        0 <= b < m.nodes.len(),
        body_nodes(m, b).contains(x),
    ensures
        b <= x < end_of(m.nodes, b),
        forall|c: int|
            #![trigger m.nodes[c]]
            b < c <= x && is_conditional(m.nodes[c].kind) ==> end_of(m.nodes, c) <= x,
{
    lemma_below_end(m.nodes, m.nodes[b].depth, b + 1);
    let end = end_of(m.nodes, b);
    lemma_direct_nodes(m, b + 1, end);
    let k = choose|k: int| 0 <= k < body_nodes(m, b).len() && body_nodes(m, b)[k] == x;
    if k > 0 {
        assert(direct_nodes(m, b + 1, end)[k - 1] == x);
    }
}

/// The report is on a node of the tree.
pub open spec fn is_at_node(m: Model, d: DiagFacts) -> bool {
    exists|i: int|
        0 <= i < m.nodes.len() && d.start_byte == (#[trigger] m.nodes[i]).start_byte && d.end_byte
            == m.nodes[i].end_byte
}

/// All reports of a list are on nodes of the tree.
pub open spec fn all_at_nodes(m: Model, diags: Seq<DiagFacts>) -> bool {
    forall|x: int| 0 <= x < diags.len() ==> is_at_node(m, #[trigger] diags[x])
}

proof fn lemma_add_at_nodes(m: Model, a: Seq<DiagFacts>, b: Seq<DiagFacts>)
    requires
        all_at_nodes(m, a),
        all_at_nodes(m, b),
    ensures
        all_at_nodes(m, a + b),
{
    assert forall|x: int| 0 <= x < (a + b).len() implies is_at_node(m, #[trigger] (a + b)[x]) by {
        if x < a.len() {
            assert((a + b)[x] == a[x]);
        } else {
            assert((a + b)[x] == b[x - a.len()]);
        }
    }
}

proof fn lemma_stateful_at_nodes(m: Model, list: Seq<int>, k: int)
    requires
        0 <= k <= list.len(),
        forall|x: int| 0 <= x < list.len() ==> 0 <= #[trigger] list[x] < m.nodes.len(),
    ensures
        all_at_nodes(m, stateful_upto(m, list, k)),
    decreases k,
{
    if k > 0 {
        lemma_stateful_at_nodes(m, list, k - 1);
        assert(m.nodes[list[k - 1]] == m.nodes[list[k - 1]]);
        lemma_add_at_nodes(m, stateful_upto(m, list, k - 1), stateful_at(m, list[k - 1]));
    }
}

proof fn lemma_duplicates_at_nodes(m: Model, ids: Seq<int>, k: int)
    requires
        0 <= k <= ids.len(),
        forall|x: int| 0 <= x < ids.len() ==> 0 <= #[trigger] ids[x] < m.nodes.len(),
    ensures
        all_at_nodes(m, duplicates_upto(m, ids, k)),
    decreases k,
{
    if k > 0 {
        lemma_duplicates_at_nodes(m, ids, k - 1);
        assert(m.nodes[ids[k - 1]] == m.nodes[ids[k - 1]]);
    }
}

proof fn lemma_keyword_arg(m: Model, list: Seq<int>, name: Seq<char>)
    ensures
        keyword_arg(m, list, name) matches Some(c) ==> list.contains(c),
    decreases list.len(),
{
    if list.len() > 0 && !is_keyword_arg(m, list[0], name) {
        let rest = list.drop_first();
        lemma_keyword_arg(m, rest, name);
        if let Some(c) = keyword_arg(m, rest, name) {
            let k = choose|k: int| 0 <= k < rest.len() && rest[k] == c;
            assert(list[k + 1] == c);
        }
    }
}

proof fn lemma_named_children(m: Model, i: int)
    requires
        0 <= i < m.nodes.len(),
    ensures
        forall|x: int|
            0 <= x < named_children_of(m.nodes, i).len() ==> i < #[trigger] named_children_of(
                m.nodes,
                i,
            )[x] < m.nodes.len(),
{
    let list = children_of(m.nodes, i);
    lemma_children(m.nodes, i);
    lemma_filter_members(list, |c: int| m.nodes[c].named);
    assert forall|x: int| 0 <= x < named_children_of(m.nodes, i).len() implies i
        < #[trigger] named_children_of(m.nodes, i)[x] < m.nodes.len() by {
        let c = named_children_of(m.nodes, i)[x];
        let k = choose|k: int| 0 <= k < list.len() && list[k] == c;
        assert(i < list[k] < m.nodes.len());
    }
}

proof fn lemma_arg_of(m: Model, args: int, name: Seq<char>, pos: int)
    requires
        0 <= args < m.nodes.len(),
        0 <= pos,
    ensures
        arg_of(m, args, name, pos) matches Some(v) ==> 0 <= v < m.nodes.len(),
{
    let list = named_children_of(m.nodes, args);
    lemma_named_children(m, args);
    lemma_keyword_arg(m, list, name);
    match keyword_arg(m, list, name) {
        Some(c) => {
            let k = choose|k: int| 0 <= k < list.len() && list[k] == c;
            assert(args < list[k] < m.nodes.len());
            lemma_field_child(m.nodes, c, "value"@);
        },
        None => {
            let p = |c: int| m.nodes[c].kind != "keyword_argument"@;
            lemma_filter_members(list, p);
            if pos < positional_args(m, list).len() {
                let c = list.filter(p)[pos];
                let k = choose|k: int| 0 <= k < list.len() && list[k] == c;
                assert(args < list[k] < m.nodes.len());
            }
        },
    }
}

proof fn lemma_lints_at(m: Model, i: int)
    requires
        m.wf(),
        0 <= i < m.nodes.len(),
    ensures
        all_at_nodes(m, lints_at(m, i)),
{
    assert(m.nodes[i] == m.nodes[i]);
    let kind = m.nodes[i].kind;
    if kind == "call"@ {
        lemma_field_child(m.nodes, i, "arguments"@);
        if let Some(args) = field_child(m.nodes, i, "arguments"@) {
            lemma_arg_of(m, args, "lookahead"@, 4);
        }
        if let Some(value) = lookahead_arg(m, i) {
            assert(m.nodes[value] == m.nodes[value]);
        }
        lemma_add_at_nodes(m, lookahead_diags(m, i), redundant_na_diags(m, i));
    } else if kind == "function_declaration_statement"@ {
        let list = children_of(m.nodes, i);
        let ids = field_children(m.nodes, i, "argument"@);
        lemma_children(m.nodes, i);
        lemma_filter_members(list, |c: int| m.nodes[c].field == Some("argument"@));
        assert forall|x: int| 0 <= x < ids.len() implies 0 <= #[trigger] ids[x]
            < m.nodes.len() by {
            let k = choose|k: int| 0 <= k < list.len() && list[k] == ids[x];
            assert(i < list[k] < m.nodes.len());
        }
        lemma_duplicates_at_nodes(m, ids, ids.len() as int);
    } else if is_conditional(kind) {
        lemma_body_child(m, i);
        if let Some(body) = body_of(m, i) {
            let list = body_nodes(m, body);
            lemma_below_end(m.nodes, m.nodes[body].depth, body + 1);
            assert forall|x: int| 0 <= x < list.len() implies 0 <= #[trigger] list[x]
                < m.nodes.len() by {
                assert(list.contains(list[x]));
                lemma_body_nodes(m, body, list[x]);
            }
            lemma_stateful_at_nodes(m, list, list.len() as int);
        }
    }
}

proof fn lemma_lints_upto(m: Model, k: int)
    requires
        m.wf(),
        0 <= k <= m.nodes.len(),
    ensures
        all_at_nodes(m, lints_upto(m, k)),
    decreases k,
{
    if k > 0 {
        lemma_lints_upto(m, k - 1);
        lemma_lints_at(m, k - 1);
        lemma_add_at_nodes(m, lints_upto(m, k - 1), lints_at(m, k - 1));
    }
}

proof fn lemma_scan(m: Model, k: int)
    requires
        0 <= k <= m.nodes.len(),
    ensures
        scan_upto(m, k).decl matches Some(d) ==> 0 <= d < k && is_top_level(m, d) && call_name(m, d)
            == Some("strategy"@),
        scan_upto(m, k).has_import <==> exists|i: int|
            0 <= i < k && (#[trigger] m.nodes[i]).kind == "import"@,
        0 <= scan_upto(m, k).entries,
    decreases k,
{
    if k > 0 {
        lemma_scan(m, k - 1);
        assert(m.nodes[k - 1] == m.nodes[k - 1]);
    }
}

/// Node `i` is a call that opens a position.
pub open spec fn opens_position(m: Model, i: int) -> bool {
    call_name(m, i) matches Some(name) && is_entry(name)
}

/// Node `i` is a call that closes or reduces a position.
pub open spec fn closes_position(m: Model, i: int) -> bool {
    call_name(m, i) matches Some(name) && is_exit(name)
}

/// Node `i` is a call that places an order.
pub open spec fn places_order(m: Model, i: int) -> bool {
    call_name(m, i) matches Some(name) && is_order_call(name)
}

/// Node `i` is a call that declares a strategy at the top level.
pub open spec fn declares_strategy(m: Model, i: int) -> bool {
    call_name(m, i) == Some("strategy"@) && is_top_level(m, i)
}

/// The first `k` nodes that are calls that open a position.
pub open spec fn entry_calls(m: Model, k: int) -> Set<int> {
    Set::new(|i: int| 0 <= i < k && opens_position(m, i))
}

proof fn lemma_scan_calls(m: Model, k: int)
    requires
        0 <= k <= m.nodes.len(),
    ensures
        entry_calls(m, k).finite(),
        scan_upto(m, k).entries == entry_calls(m, k).len(),
        scan_upto(m, k).has_exit <==> exists|i: int| 0 <= i < k && #[trigger] closes_position(m, i),
        scan_upto(m, k).has_order <==> exists|i: int| 0 <= i < k && #[trigger] places_order(m, i),
        match scan_upto(m, k).decl {
            Some(d) => 0 <= d < k && declares_strategy(m, d) && forall|i: int|
                0 <= i < d ==> !#[trigger] declares_strategy(m, i),
            None => forall|i: int| 0 <= i < k ==> !#[trigger] declares_strategy(m, i),
        },
    decreases k,
{
    if k > 0 {
        lemma_scan_calls(m, k - 1);
        let i = k - 1;
        if opens_position(m, i) {
            assert(entry_calls(m, k) =~= entry_calls(m, i).insert(i));
        } else {
            assert(entry_calls(m, k) =~= entry_calls(m, i));
        }
        let before = scan_upto(m, i);
        let now = scan_upto(m, k);
        assert(now.has_exit == (before.has_exit || closes_position(m, i)));
        assert(now.has_order == (before.has_order || places_order(m, i)));
        if declares_strategy(m, i) {
            assert(now.decl is Some);
        }
    } else {
        assert(entry_calls(m, k) =~= Set::empty());
    }
}

/// What is known of a strategy: its declaration is the first top-level call of
/// `strategy`, its entries are counted, and it has an exit, an order or an import
/// where the document holds one.
pub proof fn law_strategy_scan(m: Model)
    ensures
        ({
            let n = m.nodes.len() as int;
            let scan = scan_upto(m, n);
            &&& match scan.decl {
                Some(d) => 0 <= d < n && declares_strategy(m, d) && forall|i: int|
                    0 <= i < d ==> !#[trigger] declares_strategy(m, i),
                None => forall|i: int| 0 <= i < n ==> !#[trigger] declares_strategy(m, i),
            }
            &&& scan.entries == entry_calls(m, n).len()
            &&& scan.has_exit <==> exists|i: int| 0 <= i < n && #[trigger] closes_position(m, i)
            &&& scan.has_order <==> exists|i: int| 0 <= i < n && #[trigger] places_order(m, i)
            &&& scan.has_import <==> exists|i: int|
                0 <= i < n && (#[trigger] m.nodes[i]).kind == "import"@
        }),
{
    lemma_scan(m, m.nodes.len() as int);
    lemma_scan_calls(m, m.nodes.len() as int);
}

/// Every report of the logic-lint is on a node of the tree.
pub proof fn law_lints_are_at_nodes(m: Model)
    requires
        m.wf(),
    ensures
        all_at_nodes(m, lints_of(m)),
{
    let n = m.nodes.len() as int;
    lemma_lints_upto(m, n);
    lemma_scan(m, n);
    if let Some(decl) = scan_upto(m, n).decl {
        assert(m.nodes[decl] == m.nodes[decl]);
    }
    lemma_add_at_nodes(m, lints_upto(m, n), strategy_diags(m));
}

/// A document without a top-level `strategy()` call has no report on a strategy,
/// and neither has one with an import: an order could come from the library.
pub proof fn law_strategy_reports_need_a_strategy(m: Model)
    requires
        strategy_diags(m).len() > 0,
    ensures
        exists|i: int|
            0 <= i < m.nodes.len() && is_top_level(m, i) && #[trigger] call_name(m, i) == Some(
                "strategy"@,
            ),
        forall|i: int| 0 <= i < m.nodes.len() ==> (#[trigger] m.nodes[i]).kind != "import"@,
        strategy_diags(m).len() == 1,
{
    lemma_scan(m, m.nodes.len() as int);
}

/// Parameters with different names are never reported.
pub proof fn law_distinct_parameters_are_fine(m: Model, ids: Seq<int>, k: int)
    requires
        0 <= k <= ids.len(),
        forall|a: int, b: int|
            #![trigger ids[a], ids[b]]
            0 <= a < b < ids.len() ==> m.node_text(ids[a]) != m.node_text(ids[b]),
    ensures
        duplicates_upto(m, ids, k) == Seq::<DiagFacts>::empty(),
    decreases k,
{
    if k > 0 {
        law_distinct_parameters_are_fine(m, ids, k - 1);
        assert(!repeats(m, ids, k - 1));
    }
}

/// The codes of the reports and the kinds of nodes that they are on, told apart by
/// their lengths and letters.
proof fn lemma_words_differ()
    ensures
        "ta-conditional"@.len() == 14,
        "ta-conditional"@[0] == 't',
        "self-assignment"@.len() == 15,
        "duplicate-parameter"@.len() == 19,
        "redundant-na"@.len() == 12,
        "lookahead-bias"@.len() == 14,
        "lookahead-bias"@[0] == 'l',
        "future-leak"@.len() == 11,
        "strategy-no-orders"@.len() == 18,
        "strategy-no-exit"@.len() == 16,
        "call"@.len() == 4,
        "subscript"@.len() == 9,
        "reassignment"@.len() == 12,
        "reassignment"@[0] == 'r',
        "function_declaration_statement"@.len() == 30,
        "if_statement"@.len() == 12,
        "if_statement"@[0] == 'i',
        "for_statement"@.len() == 13,
        "for_in_statement"@.len() == 16,
        "while_statement"@.len() == 15,
{
    reveal_strlit("ta-conditional");
    reveal_strlit("self-assignment");
    reveal_strlit("duplicate-parameter");
    reveal_strlit("redundant-na");
    reveal_strlit("lookahead-bias");
    reveal_strlit("future-leak");
    reveal_strlit("strategy-no-orders");
    reveal_strlit("strategy-no-exit");
    reveal_strlit("call");
    reveal_strlit("subscript");
    reveal_strlit("reassignment");
    reveal_strlit("function_declaration_statement");
    reveal_strlit("if_statement");
    reveal_strlit("for_statement");
    reveal_strlit("for_in_statement");
    reveal_strlit("while_statement");
}

proof fn lemma_lint_found(m: Model, k: int, i: int, y: int)
    requires
        0 <= i < k <= m.nodes.len(),
        0 <= y < lints_at(m, i).len(),
    ensures
        lints_upto(m, k).contains(lints_at(m, i)[y]),
    decreases k,
{
    let before = lints_upto(m, k - 1);
    let now = lints_upto(m, k);
    let d = lints_at(m, i)[y];
    if i < k - 1 {
        lemma_lint_found(m, k - 1, i, y);
        let x = choose|x: int| 0 <= x < before.len() && before[x] == d;
        assert(now[x] == d);
    } else {
        assert(now[before.len() + y] == d);
    }
}

/// What a node is reported for is among the reports of the document.
proof fn lemma_reported(m: Model, i: int, y: int)
    requires
        0 <= i < m.nodes.len(),
        0 <= y < lints_at(m, i).len(),
    ensures
        lints_of(m).contains(lints_at(m, i)[y]),
{
    let n = m.nodes.len() as int;
    let d = lints_at(m, i)[y];
    lemma_lint_found(m, n, i, y);
    let list = lints_upto(m, n);
    let x = choose|x: int| 0 <= x < list.len() && list[x] == d;
    assert(lints_of(m)[x] == d);
}

proof fn lemma_lint_source(m: Model, k: int, x: int)
    requires
        0 <= k <= m.nodes.len(),
        0 <= x < lints_upto(m, k).len(),
    ensures
        exists|i: int| 0 <= i < k && #[trigger] lints_at(m, i).contains(lints_upto(m, k)[x]),
    decreases k,
{
    let before = lints_upto(m, k - 1);
    let d = lints_upto(m, k)[x];
    if x < before.len() {
        lemma_lint_source(m, k - 1, x);
        assert(d == before[x]);
        let i = choose|i: int| 0 <= i < k - 1 && #[trigger] lints_at(m, i).contains(before[x]);
        assert(lints_at(m, i).contains(d));
    } else {
        assert(lints_at(m, k - 1)[x - before.len()] == d);
        assert(lints_at(m, k - 1).contains(d));
    }
}

proof fn lemma_stateful_code(m: Model, list: Seq<int>, k: int)
    requires
        0 <= k <= list.len(),
    ensures
        forall|x: int|
            0 <= x < stateful_upto(m, list, k).len() ==> (#[trigger] stateful_upto(
                m,
                list,
                k,
            )[x]).code == "ta-conditional"@,
    decreases k,
{
    if k > 0 {
        lemma_stateful_code(m, list, k - 1);
    }
}

proof fn lemma_duplicate_code(m: Model, ids: Seq<int>, k: int)
    requires
        0 <= k <= ids.len(),
    ensures
        forall|x: int|
            0 <= x < duplicates_upto(m, ids, k).len() ==> (#[trigger] duplicates_upto(
                m,
                ids,
                k,
            )[x]).code == "duplicate-parameter"@,
    decreases k,
{
    if k > 0 {
        lemma_duplicate_code(m, ids, k - 1);
    }
}

/// A report on a node has the code that goes with the kind of the node.
proof fn lemma_code_of_kind(m: Model, i: int, d: DiagFacts)
    requires
        lints_at(m, i).contains(d),
    ensures
        ({
            let kind = m.nodes[i].kind;
            ||| kind == "call"@ && d.code == "lookahead-bias"@ && lookahead_diags(m, i).contains(d)
            ||| kind == "call"@ && d.code == "redundant-na"@ && redundant_na_diags(m, i).contains(d)
            ||| kind == "subscript"@ && d.code == "future-leak"@ && future_leak_diags(
                m,
                i,
            ).contains(d)
            ||| kind == "reassignment"@ && d.code == "self-assignment"@ && self_assignment_diags(
                m,
                i,
            ).contains(d)
            ||| kind == "function_declaration_statement"@ && d.code == "duplicate-parameter"@
                && duplicate_diags(m, i).contains(d)
            ||| is_conditional(kind) && d.code == "ta-conditional"@ && conditional_diags(
                m,
                i,
            ).contains(d)
        }),
{
    lemma_words_differ();
    let kind = m.nodes[i].kind;
    let y = choose|y: int| 0 <= y < lints_at(m, i).len() && lints_at(m, i)[y] == d;
    if kind == "call"@ {
        let first = lookahead_diags(m, i);
        if y < first.len() {
            assert(first[y] == d);
        } else {
            assert(redundant_na_diags(m, i)[y - first.len()] == d);
        }
    } else if kind == "function_declaration_statement"@ {
        let ids = field_children(m.nodes, i, "argument"@);
        lemma_duplicate_code(m, ids, ids.len() as int);
    } else if is_conditional(kind) {
        if let Some(body) = body_of(m, i) {
            let list = body_nodes(m, body);
            lemma_stateful_code(m, list, list.len() as int);
        }
    }
}

/// A report with one of the codes of single nodes comes from a node.
proof fn lemma_source_of_code(m: Model, x: int) -> (i: int)
    requires
        0 <= x < lints_of(m).len(),
        lints_of(m)[x].code != "strategy-no-orders"@,
        lints_of(m)[x].code != "strategy-no-exit"@,
    ensures
        0 <= i < m.nodes.len(),
        lints_at(m, i).contains(lints_of(m)[x]),
{
    let n = m.nodes.len() as int;
    let list = lints_upto(m, n);
    let d = lints_of(m)[x];
    if x < list.len() {
        assert(list[x] == d);
        lemma_lint_source(m, n, x);
    } else {
        assert(strategy_diags(m)[x - list.len()] == d);
    }
    choose|i: int| 0 <= i < n && #[trigger] lints_at(m, i).contains(d)
}

/// A report on a strategy comes from the check of the strategy.
proof fn lemma_source_of_strategy(m: Model, x: int)
    requires
        0 <= x < lints_of(m).len(),
        lints_of(m)[x].code == "strategy-no-orders"@ || lints_of(m)[x].code
            == "strategy-no-exit"@,
    ensures
        strategy_diags(m).contains(lints_of(m)[x]),
{
    lemma_words_differ();
    let n = m.nodes.len() as int;
    let list = lints_upto(m, n);
    let d = lints_of(m)[x];
    if x < list.len() {
        assert(list[x] == d);
        lemma_lint_source(m, n, x);
        let i = choose|i: int| 0 <= i < n && #[trigger] lints_at(m, i).contains(list[x]);
        lemma_code_of_kind(m, i, d);
    } else {
        assert(strategy_diags(m)[x - list.len()] == d);
    }
}

/// A document that calls `strategy.exit`, `strategy.close` or `strategy.close_all`
/// anywhere is reported neither for placing no orders nor for having no exit.
pub proof fn law_an_exit_is_enough(m: Model, i: int, x: int)
    requires
        0 <= i < m.nodes.len(),
        call_name(m, i) == Some("strategy.exit"@) || call_name(m, i) == Some("strategy.close"@)
            || call_name(m, i) == Some("strategy.close_all"@),
        0 <= x < lints_of(m).len(),
    ensures
        lints_of(m)[x].code != "strategy-no-exit"@,
        lints_of(m)[x].code != "strategy-no-orders"@,
{
    lemma_words_differ();
    lemma_scan_calls(m, m.nodes.len() as int);
    assert(closes_position(m, i));
    assert(places_order(m, i));
    if lints_of(m)[x].code == "strategy-no-orders"@ || lints_of(m)[x].code == "strategy-no-exit"@ {
        lemma_source_of_strategy(m, x);
    }
}

/// A document that calls `strategy.entry` or `strategy.order` anywhere is not reported
/// for placing no orders, and one that does so at two places is not reported for having
/// no exit either.
pub proof fn law_entries_are_orders(m: Model, i: int, j: int, x: int)
    requires
        0 <= i < m.nodes.len(),
        0 <= j < m.nodes.len(),
        call_name(m, i) == Some("strategy.entry"@) || call_name(m, i) == Some("strategy.order"@),
        call_name(m, j) == Some("strategy.entry"@) || call_name(m, j) == Some("strategy.order"@),
        0 <= x < lints_of(m).len(),
    ensures
        lints_of(m)[x].code != "strategy-no-orders"@,
        i != j ==> lints_of(m)[x].code != "strategy-no-exit"@,
{
    let n = m.nodes.len() as int;
    lemma_words_differ();
    lemma_scan_calls(m, n);
    assert(places_order(m, i));
    assert(opens_position(m, i));
    assert(opens_position(m, j));
    if i != j {
        let some = entry_calls(m, n);
        assert(some.contains(i) && some.contains(j));
        assert(some.remove(i).contains(j));
        assert(some.remove(i).len() > 0);
        assert(some.len() >= 2);
    }
    if lints_of(m)[x].code == "strategy-no-orders"@ || lints_of(m)[x].code == "strategy-no-exit"@ {
        lemma_source_of_strategy(m, x);
    }
}

/// A document with an import is not reported for what its strategy does: orders may be
/// placed in the library.
pub proof fn law_an_import_is_enough(m: Model, i: int, x: int)
    requires
        0 <= i < m.nodes.len(),
        m.nodes[i].kind == "import"@,
        0 <= x < lints_of(m).len(),
    ensures
        lints_of(m)[x].code != "strategy-no-exit"@,
        lints_of(m)[x].code != "strategy-no-orders"@,
{
    lemma_words_differ();
    lemma_scan(m, m.nodes.len() as int);
    assert(m.nodes[i].kind == "import"@);
    if lints_of(m)[x].code == "strategy-no-orders"@ || lints_of(m)[x].code == "strategy-no-exit"@ {
        lemma_source_of_strategy(m, x);
    }
}

/// Node `d` is the first call of `strategy` that is a statement of the file itself.
pub open spec fn is_strategy_call(m: Model, d: int) -> bool {
    &&& call_name(m, d) == Some("strategy"@)
    &&& parent_of(m.nodes, d) matches Some(p) && m.nodes[p].kind == "simple_statement"@ && (
    parent_of(m.nodes, p) matches Some(g) && m.nodes[g].kind == "source_file"@)
}

/// A strategy script without an import and without any order is reported, at its first
/// `strategy` call: one that calls none of `strategy.entry`, `strategy.order`,
/// `strategy.exit`, `strategy.close` and `strategy.close_all`.
pub proof fn law_no_orders_is_reported(m: Model, d: int)
    requires
        0 <= d < m.nodes.len(),
        is_strategy_call(m, d),
        forall|i: int| 0 <= i < d ==> !#[trigger] is_strategy_call(m, i),
        forall|i: int| 0 <= i < m.nodes.len() ==> (#[trigger] m.nodes[i]).kind != "import"@,
        forall|i: int|
            0 <= i < m.nodes.len() ==> {
                let name = #[trigger] call_name(m, i);
                &&& name != Some("strategy.entry"@)
                &&& name != Some("strategy.order"@)
                &&& name != Some("strategy.exit"@)
                &&& name != Some("strategy.close"@)
                &&& name != Some("strategy.close_all"@)
            },
    ensures
        lints_of(m).contains(
            DiagFacts {
                start_byte: m.nodes[d].start_byte,
                end_byte: m.nodes[d].end_byte,
                severity: Severity::Info,
                code: "strategy-no-orders"@,
                message:
                    "`strategy()` script never places an order (no strategy.entry/order/exit/close/close_all call found)"@,
            },
        ),
{
    let n = m.nodes.len() as int;
    lemma_scan(m, n);
    lemma_scan_calls(m, n);
    lemma_first_strategy(m, d);
    assert forall|i: int| 0 <= i < n implies !#[trigger] places_order(m, i) by {
        assert(call_name(m, i) != Some("strategy.entry"@));
    }
    let list = lints_upto(m, n);
    assert(lints_of(m)[list.len() as int] == strategy_diags(m)[0]);
}

proof fn lemma_first_strategy(m: Model, d: int)
    requires
        0 <= d < m.nodes.len(),
        is_strategy_call(m, d),
        forall|i: int| 0 <= i < d ==> !#[trigger] is_strategy_call(m, i),
    ensures
        scan_upto(m, m.nodes.len() as int).decl == Some(d),
{
    lemma_scan_calls(m, m.nodes.len() as int);
    assert(declares_strategy(m, d));
    if let Some(e) = scan_upto(m, m.nodes.len() as int).decl {
        assert(declares_strategy(m, e));
        assert(is_strategy_call(m, e));
        if e < d {
            assert(!is_strategy_call(m, e));
        }
    }
}

/// A strategy script without an import that calls one of `strategy.entry` and
/// `strategy.order` at a single place, and none of `strategy.exit`, `strategy.close` and
/// `strategy.close_all`, is reported for having no exit.
pub proof fn law_no_exit_is_reported(m: Model, d: int, entry: int)
    requires
        0 <= d < m.nodes.len(),
        is_strategy_call(m, d),
        forall|i: int| 0 <= i < d ==> !#[trigger] is_strategy_call(m, i),
        forall|i: int| 0 <= i < m.nodes.len() ==> (#[trigger] m.nodes[i]).kind != "import"@,
        0 <= entry < m.nodes.len(),
        forall|i: int|
            0 <= i < m.nodes.len() ==> {
                let name = #[trigger] call_name(m, i);
                &&& i == entry <==> (name == Some("strategy.entry"@) || name == Some(
                    "strategy.order"@,
                ))
                &&& name != Some("strategy.exit"@)
                &&& name != Some("strategy.close"@)
                &&& name != Some("strategy.close_all"@)
            },
    ensures
        lints_of(m).contains(
            DiagFacts {
                start_byte: m.nodes[d].start_byte,
                end_byte: m.nodes[d].end_byte,
                severity: Severity::Info,
                code: "strategy-no-exit"@,
                message:
                    "`strategy.entry` has no matching exit (no strategy.exit/close/close_all call found); positions may never be closed"@,
            },
        ),
{
    let n = m.nodes.len() as int;
    lemma_scan(m, n);
    lemma_scan_calls(m, n);
    lemma_first_strategy(m, d);
    assert(call_name(m, entry) == Some("strategy.entry"@) || call_name(m, entry) == Some(
        "strategy.order"@,
    ));
    assert(places_order(m, entry));
    assert forall|i: int| 0 <= i < n implies !#[trigger] closes_position(m, i) by {
        assert(call_name(m, i) != Some("strategy.exit"@));
    }
    assert forall|i: int| #[trigger] entry_calls(m, n).contains(i) <==> i == entry by {
        if 0 <= i < n {
            assert(call_name(m, i) == call_name(m, i));
        }
    }
    assert(entry_calls(m, n) =~= Set::empty().insert(entry));
    assert(entry_calls(m, n).len() == 1);
    let list = lints_upto(m, n);
    assert(lints_of(m)[list.len() as int] == strategy_diags(m)[0]);
}

/// A report on a strategy is on its first `strategy` call.
pub proof fn law_strategy_reports_are_on_the_call(m: Model, x: int)
    requires
        0 <= x < lints_of(m).len(),
        lints_of(m)[x].code == "strategy-no-orders"@ || lints_of(m)[x].code
            == "strategy-no-exit"@,
    ensures
        lints_of(m)[x].severity == Severity::Info,
        exists|d: int|
            0 <= d < m.nodes.len() && #[trigger] is_strategy_call(m, d) && lints_of(m)[x].start_byte
                == m.nodes[d].start_byte && lints_of(m)[x].end_byte == m.nodes[d].end_byte,
{
    lemma_source_of_strategy(m, x);
    lemma_scan_calls(m, m.nodes.len() as int);
    let d = scan_upto(m, m.nodes.len() as int).decl->0;
    assert(declares_strategy(m, d));
    assert(is_strategy_call(m, d));
}

/// Node `i` assigns the identifier `variable` to itself: `x := x`.
pub open spec fn assigns_to_itself(
    m: Model,
    i: int,
    operator: int,
    variable: int,
    value: int,
) -> bool {
    &&& m.nodes[i].kind == "reassignment"@
    &&& field_child(m.nodes, i, "operator"@) == Some(operator)
    &&& field_child(m.nodes, i, "variable"@) == Some(variable)
    &&& field_child(m.nodes, i, "value"@) == Some(value)
    &&& m.node_text(operator) == ":="@
    &&& m.nodes[variable].kind == "identifier"@
    &&& m.nodes[value].kind == "identifier"@
    &&& m.node_text(variable) == m.node_text(value)
}

/// The report on node `i` for assigning `name` to itself.
pub open spec fn self_assignment_report(m: Model, i: int, name: Seq<char>) -> DiagFacts {
    DiagFacts {
        start_byte: m.nodes[i].start_byte,
        end_byte: m.nodes[i].end_byte,
        severity: Severity::Warning,
        code: "self-assignment"@,
        message: "Self-assignment `"@ + name + " := "@ + name + "` has no effect"@,
    }
}

/// Every assignment of an identifier to itself with the plain operator is reported.
pub proof fn law_self_assignments_are_reported(
    m: Model,
    i: int,
    operator: int,
    variable: int,
    value: int,
)
    requires
        0 <= i < m.nodes.len(),
        assigns_to_itself(m, i, operator, variable, value),
    ensures
        lints_of(m).contains(self_assignment_report(m, i, m.node_text(variable))),
{
    lemma_words_differ();
    assert(lints_at(m, i)[0] == self_assignment_report(m, i, m.node_text(variable)));
    lemma_reported(m, i, 0);
}

/// Nothing else is reported as a self-assignment.
pub proof fn law_self_assignment_reports_are_right(m: Model, x: int)
    requires
        0 <= x < lints_of(m).len(),
        lints_of(m)[x].code == "self-assignment"@,
    ensures
        exists|i: int, operator: int, variable: int, value: int|
            0 <= i < m.nodes.len() && #[trigger] assigns_to_itself(m, i, operator, variable, value)
                && lints_of(m)[x] == self_assignment_report(m, i, m.node_text(variable)),
{
    lemma_words_differ();
    let i = lemma_source_of_code(m, x);
    lemma_code_of_kind(m, i, lints_of(m)[x]);
    let operator = field_child(m.nodes, i, "operator"@)->0;
    let variable = field_child(m.nodes, i, "variable"@)->0;
    let value = field_child(m.nodes, i, "value"@)->0;
    assert(assigns_to_itself(m, i, operator, variable, value));
}

/// Node `b` is a parameter of the function that node `i` declares, and repeats the name
/// of the earlier parameter `a`.
pub open spec fn repeats_parameter(m: Model, i: int, a: int, b: int) -> bool {
    &&& m.nodes[i].kind == "function_declaration_statement"@
    &&& 0 <= a < b < m.nodes.len()
    &&& parent_of(m.nodes, a) == Some(i)
    &&& parent_of(m.nodes, b) == Some(i)
    &&& m.nodes[a].field == Some("argument"@)
    &&& m.nodes[b].field == Some("argument"@)
    &&& m.nodes[a].kind == "identifier"@
    &&& m.nodes[b].kind == "identifier"@
    &&& m.node_text(a) == m.node_text(b)
}

/// The report on the repeated parameter `b`.
pub open spec fn duplicate_report(m: Model, b: int) -> DiagFacts {
    DiagFacts {
        start_byte: m.nodes[b].start_byte,
        end_byte: m.nodes[b].end_byte,
        severity: Severity::Error,
        code: "duplicate-parameter"@,
        message: "Duplicate parameter `"@ + m.node_text(b) + "` in function definition"@,
    }
}

proof fn lemma_duplicate_found(m: Model, ids: Seq<int>, k: int, y: int)
    requires
        0 <= y < k <= ids.len(),
        repeats(m, ids, y),
    ensures
        duplicates_upto(m, ids, k).contains(duplicate_report(m, ids[y])),
    decreases k,
{
    let before = duplicates_upto(m, ids, k - 1);
    let now = duplicates_upto(m, ids, k);
    let d = duplicate_report(m, ids[y]);
    if y < k - 1 {
        lemma_duplicate_found(m, ids, k - 1, y);
        let x = choose|x: int| 0 <= x < before.len() && before[x] == d;
        assert(now[x] == d);
    } else {
        assert(now[now.len() - 1] == d);
    }
}

proof fn lemma_duplicate_source(m: Model, ids: Seq<int>, k: int, x: int)
    requires
        0 <= k <= ids.len(),
        0 <= x < duplicates_upto(m, ids, k).len(),
    ensures
        exists|y: int|
            0 <= y < k && #[trigger] repeats(m, ids, y) && duplicates_upto(m, ids, k)[x]
                == duplicate_report(m, ids[y]),
    decreases k,
{
    let before = duplicates_upto(m, ids, k - 1);
    if x < before.len() {
        lemma_duplicate_source(m, ids, k - 1, x);
        assert(duplicates_upto(m, ids, k)[x] == before[x]);
    } else {
        assert(repeats(m, ids, k - 1));
        assert(duplicates_upto(m, ids, k)[x] == duplicate_report(m, ids[k - 1]));
    }
}

/// A parameter that repeats the name of an earlier one of its function is reported, as
/// an error.
pub proof fn law_duplicate_parameters_are_reported(m: Model, i: int, a: int, b: int)
    requires
        m.wf(),
        0 <= i < m.nodes.len(),
        repeats_parameter(m, i, a, b),
    ensures
        lints_of(m).contains(duplicate_report(m, b)),
{
    lemma_words_differ();
    let ids = field_children(m.nodes, i, "argument"@);
    law_field_children_have_the_field(m.nodes, i, "argument"@, a);
    law_field_children_have_the_field(m.nodes, i, "argument"@, b);
    let x = choose|x: int| 0 <= x < ids.len() && ids[x] == a;
    let y = choose|y: int| 0 <= y < ids.len() && ids[y] == b;
    if y < x {
        law_chosen_children_in_order(m.nodes, i, "argument"@, y, x);
    }
    assert(ids[x] == a);
    assert(repeats(m, ids, y));
    lemma_duplicate_found(m, ids, ids.len() as int, y);
    let list = lints_at(m, i);
    let z = choose|z: int| 0 <= z < list.len() && list[z] == duplicate_report(m, b);
    lemma_reported(m, i, z);
}

/// Nothing else is reported as a duplicate parameter.
pub proof fn law_duplicate_reports_are_right(m: Model, x: int)
    requires
        m.wf(),
        0 <= x < lints_of(m).len(),
        lints_of(m)[x].code == "duplicate-parameter"@,
    ensures
        exists|i: int, a: int, b: int|
            0 <= i < m.nodes.len() && #[trigger] repeats_parameter(m, i, a, b) && lints_of(m)[x]
                == duplicate_report(m, b),
{
    lemma_words_differ();
    let d = lints_of(m)[x];
    let i = lemma_source_of_code(m, x);
    lemma_code_of_kind(m, i, d);
    let ids = field_children(m.nodes, i, "argument"@);
    let list = duplicate_diags(m, i);
    let z = choose|z: int| 0 <= z < list.len() && list[z] == d;
    lemma_duplicate_source(m, ids, ids.len() as int, z);
    let y = choose|y: int|
        0 <= y < ids.len() && #[trigger] repeats(m, ids, y) && list[z] == duplicate_report(
            m,
            ids[y],
        );
    let j = choose|j: int|
        #![trigger ids[j]]
        0 <= j < y && m.nodes[ids[j]].kind == "identifier"@ && m.node_text(ids[j]) == m.node_text(
            ids[y],
        );
    let a = ids[j];
    let b = ids[y];
    lemma_children(m.nodes, i);
    lemma_field_children_range(m, i, "argument"@);
    law_chosen_children_in_order(m.nodes, i, "argument"@, j, y);
    assert(ids.contains(a) && ids.contains(b));
    law_field_children_have_the_field(m.nodes, i, "argument"@, a);
    law_field_children_have_the_field(m.nodes, i, "argument"@, b);
    assert(repeats_parameter(m, i, a, b));
}

proof fn lemma_field_children_range(m: Model, i: int, field: Seq<char>)
    requires
        0 <= i < m.nodes.len(),
    ensures
        forall|x: int|
            0 <= x < field_children(m.nodes, i, field).len() ==> i < #[trigger] field_children(
                m.nodes,
                i,
                field,
            )[x] < m.nodes.len(),
{
    let list = children_of(m.nodes, i);
    let p = |c: int| m.nodes[c].field == Some(field);
    lemma_children(m.nodes, i);
    lemma_filter_members(list, p);
    assert forall|x: int| 0 <= x < field_children(m.nodes, i, field).len() implies i
        < #[trigger] field_children(m.nodes, i, field)[x] < m.nodes.len() by {
        let c = list.filter(p)[x];
        assert(list.contains(c));
        let k = choose|k: int| 0 <= k < list.len() && list[k] == c;
        assert(i < list[k] < end_of(m.nodes, i));
    }
}

/// Node `i` is `na(na(..))`: its first argument is a call of `na` again.
pub open spec fn asks_na_twice(m: Model, i: int, args: int, inner: int) -> bool {
    &&& call_name(m, i) == Some("na"@)
    &&& field_child(m.nodes, i, "arguments"@) == Some(args)
    &&& named_children_of(m.nodes, args).len() > 0
    &&& named_children_of(m.nodes, args)[0] == inner
    &&& call_name(m, inner) == Some("na"@)
}

/// The report on the outer call of `na(na(..))`.
pub open spec fn redundant_na_report(m: Model, i: int) -> DiagFacts {
    DiagFacts {
        start_byte: m.nodes[i].start_byte,
        end_byte: m.nodes[i].end_byte,
        severity: Severity::Warning,
        code: "redundant-na"@,
        message: "`na(na(x))` is redundant; the inner `na()` already returns a bool"@,
    }
}

/// `na(na(..))` is reported wherever it stands, and nothing else is reported so.
pub proof fn law_redundant_na_is_reported(m: Model, i: int, args: int, inner: int, x: int)
    requires
        0 <= i < m.nodes.len(),
    ensures
        asks_na_twice(m, i, args, inner) ==> lints_of(m).contains(redundant_na_report(m, i)),
        0 <= x < lints_of(m).len() && lints_of(m)[x].code == "redundant-na"@ ==> exists|
            j: int,
            a: int,
            b: int,
        |
            0 <= j < m.nodes.len() && #[trigger] asks_na_twice(m, j, a, b) && lints_of(m)[x]
                == redundant_na_report(m, j),
{
    lemma_words_differ();
    if asks_na_twice(m, i, args, inner) {
        let y = lookahead_diags(m, i).len() as int;
        assert(lints_at(m, i)[y] == redundant_na_report(m, i));
        lemma_reported(m, i, y);
    }
    if 0 <= x < lints_of(m).len() && lints_of(m)[x].code == "redundant-na"@ {
        let j = lemma_source_of_code(m, x);
        lemma_code_of_kind(m, j, lints_of(m)[x]);
        let a = field_child(m.nodes, j, "arguments"@)->0;
        let b = named_children_of(m.nodes, a)[0];
        assert(asks_na_twice(m, j, a, b));
    }
}

/// Node `i` reads the future: a history access whose offset is written with a minus
/// sign first, white space before it left out.
pub open spec fn reads_the_future(m: Model, i: int, offset: int, k: int) -> bool {
    &&& m.nodes[i].kind == "subscript"@
    &&& field_child(m.nodes, i, "offset"@) == Some(offset)
    &&& m.nodes[offset].kind == "unary_operation"@
    &&& 0 <= k < m.node_text(offset).len()
    &&& m.node_text(offset)[k] == '-'
    &&& forall|j: int| 0 <= j < k ==> is_space(#[trigger] m.node_text(offset)[j])
}

/// The report on a history access that reads the future.
pub open spec fn future_report(m: Model, i: int) -> DiagFacts {
    DiagFacts {
        start_byte: m.nodes[i].start_byte,
        end_byte: m.nodes[i].end_byte,
        severity: Severity::Warning,
        code: "future-leak"@,
        message: "Negative history reference reads future bars (lookahead)"@,
    }
}

proof fn lemma_first_visible(t: Seq<char>, k: int)
    requires
        0 <= k < t.len(),
        !is_space(t[k]),
        forall|j: int| 0 <= j < k ==> is_space(#[trigger] t[j]),
    ensures
        trim_start(t).len() > 0 && trim_start(t)[0] == t[k],
{
    law_trimming_takes_white_space(t, k);
    let start = t.len() - trim_start(t).len();
    law_trimming_takes_white_space(t, start);
    if start < k {
        assert(is_space(t[start]));
    }
}

/// A negative history offset is reported wherever it stands, and nothing else is
/// reported so.
pub proof fn law_future_leaks_are_reported(m: Model, i: int, offset: int, k: int, x: int)
    requires
        0 <= i < m.nodes.len(),
    ensures
        reads_the_future(m, i, offset, k) ==> lints_of(m).contains(future_report(m, i)),
        0 <= x < lints_of(m).len() && lints_of(m)[x].code == "future-leak"@ ==> exists|
            a: int,
            b: int,
            c: int,
        |
            0 <= a < m.nodes.len() && #[trigger] reads_the_future(m, a, b, c) && lints_of(m)[x]
                == future_report(m, a),
{
    lemma_words_differ();
    if reads_the_future(m, i, offset, k) {
        lemma_first_visible(m.node_text(offset), k);
        assert(lints_at(m, i)[0] == future_report(m, i));
        lemma_reported(m, i, 0);
    }
    if 0 <= x < lints_of(m).len() && lints_of(m)[x].code == "future-leak"@ {
        let a = lemma_source_of_code(m, x);
        lemma_code_of_kind(m, a, lints_of(m)[x]);
        let b = field_child(m.nodes, a, "offset"@)->0;
        let t = m.node_text(b);
        let c = t.len() - trim_start(t).len();
        law_trimming_takes_white_space(t, c);
        assert forall|j: int| 0 <= j < c implies is_space(#[trigger] m.node_text(b)[j]) by {
            law_trimming_takes_white_space(t, j);
        }
        assert(t[c] == trim_start(t)[0]);
        assert(reads_the_future(m, a, b, c));
    }
}

/// Node `c` is the argument `lookahead=..`.
pub open spec fn is_lookahead_key(m: Model, c: int) -> bool {
    &&& m.nodes[c].kind == "keyword_argument"@
    &&& field_child(m.nodes, c, "key"@) matches Some(key) && m.node_text(key) == "lookahead"@
}

/// The call at node `i` asks for `value` as the lookahead of another symbol's data: by
/// name, the first time that the name comes, or else as the fifth argument without a
/// name.
pub open spec fn asks_for_lookahead(m: Model, i: int, args: int, value: int) -> bool {
    let list = named_children_of(m.nodes, args);
    &&& call_name(m, i) == Some("request.security"@) || call_name(m, i) == Some(
        "request.security_lower_tf"@,
    )
    &&& field_child(m.nodes, i, "arguments"@) == Some(args)
    &&& {
        ||| exists|k: int|
            0 <= k < list.len() && is_lookahead_key(m, #[trigger] list[k]) && field_child(
                m.nodes,
                list[k],
                "value"@,
            ) == Some(value) && forall|j: int|
                0 <= j < k ==> !is_lookahead_key(m, #[trigger] list[j])
        ||| {
            let plain = list.filter(|c: int| m.nodes[c].kind != "keyword_argument"@);
            &&& forall|j: int| 0 <= j < list.len() ==> !is_lookahead_key(m, #[trigger] list[j])
            &&& plain.len() > 4
            &&& plain[4] == value
        }
    }
}

/// The report on a lookahead argument.
pub open spec fn lookahead_report(m: Model, value: int) -> DiagFacts {
    DiagFacts {
        start_byte: m.nodes[value].start_byte,
        end_byte: m.nodes[value].end_byte,
        severity: Severity::Warning,
        code: "lookahead-bias"@,
        message:
            "request.security lookahead set to barmerge.lookahead_on; this can introduce lookahead bias"@,
    }
}

proof fn lemma_keyword_first(m: Model, list: Seq<int>, k: int)
    requires
        0 <= k <= list.len(),
        forall|j: int| 0 <= j < k ==> !is_lookahead_key(m, #[trigger] list[j]),
        k < list.len() ==> is_lookahead_key(m, list[k]),
    ensures
        keyword_arg(m, list, "lookahead"@) == if k < list.len() {
            Some(list[k])
        } else {
            None
        },
    decreases list.len(),
{
    if list.len() > 0 && k > 0 {
        let rest = list.drop_first();
        assert(!is_lookahead_key(m, list[0]));
        assert forall|j: int| 0 <= j < k - 1 implies !is_lookahead_key(m, #[trigger] rest[j]) by {
            assert(rest[j] == list[j + 1]);
        }
        lemma_keyword_first(m, rest, k - 1);
    }
}

proof fn lemma_keyword_index(m: Model, list: Seq<int>) -> (k: int)
    ensures
        0 <= k <= list.len(),
        forall|j: int| 0 <= j < k ==> !is_lookahead_key(m, #[trigger] list[j]),
        k < list.len() ==> is_lookahead_key(m, list[k]),
    decreases list.len(),
{
    if list.len() == 0 || is_lookahead_key(m, list[0]) {
        0
    } else {
        let rest = list.drop_first();
        let k = lemma_keyword_index(m, rest);
        assert forall|j: int| 0 <= j < k + 1 implies !is_lookahead_key(m, #[trigger] list[j]) by {
            if j > 0 {
                assert(rest[j - 1] == list[j]);
            }
        }
        k + 1
    }
}

/// A `request.security` call that asks for `barmerge.lookahead_on` is reported, on the
/// argument.
pub proof fn law_lookahead_is_reported(m: Model, i: int, args: int, value: int)
    requires
        0 <= i < m.nodes.len(),
        asks_for_lookahead(m, i, args, value),
        dotted_of(m, value) == Some("barmerge.lookahead_on"@) || (dotted_of(m, value) is None
            && m.node_text(value) == "barmerge.lookahead_on"@),
    ensures
        lints_of(m).contains(lookahead_report(m, value)),
{
    lemma_words_differ();
    let list = named_children_of(m.nodes, args);
    let k = lemma_keyword_index(m, list);
    lemma_keyword_first(m, list, k);
    if exists|k: int|
        0 <= k < list.len() && is_lookahead_key(m, #[trigger] list[k]) && field_child(
            m.nodes,
            list[k],
            "value"@,
        ) == Some(value) && forall|j: int|
            0 <= j < k ==> !is_lookahead_key(m, #[trigger] list[j]) {
        let l = choose|k: int|
            0 <= k < list.len() && is_lookahead_key(m, #[trigger] list[k]) && field_child(
                m.nodes,
                list[k],
                "value"@,
            ) == Some(value) && forall|j: int|
                0 <= j < k ==> !is_lookahead_key(m, #[trigger] list[j]);
        lemma_keyword_first(m, list, l);
    } else if k < list.len() {
        assert(!is_lookahead_key(m, list[k]));
    }
    assert(lookahead_arg(m, i) == Some(value));
    assert(lints_at(m, i)[0] == lookahead_report(m, value));
    lemma_reported(m, i, 0);
}

/// Nothing else is reported as a lookahead.
pub proof fn law_lookahead_reports_are_right(m: Model, x: int)
    requires
        0 <= x < lints_of(m).len(),
        lints_of(m)[x].code == "lookahead-bias"@,
    ensures
        exists|i: int, args: int, value: int|
            0 <= i < m.nodes.len() && #[trigger] asks_for_lookahead(m, i, args, value)
                && lints_of(m)[x] == lookahead_report(m, value) && (dotted_of(m, value) == Some(
                "barmerge.lookahead_on"@,
            ) || (dotted_of(m, value) is None && m.node_text(value) == "barmerge.lookahead_on"@)),
{
    lemma_words_differ();
    let i = lemma_source_of_code(m, x);
    lemma_code_of_kind(m, i, lints_of(m)[x]);
    let args = field_child(m.nodes, i, "arguments"@)->0;
    let list = named_children_of(m.nodes, args);
    let value = lookahead_arg(m, i)->0;
    let k = lemma_keyword_index(m, list);
    lemma_keyword_first(m, list, k);
    if k < list.len() {
        assert(is_lookahead_key(m, list[k]));
    }
    assert(asks_for_lookahead(m, i, args, value));
}

/// The functions whose value depends on being asked for on every bar.
pub open spec fn stateful_names() -> Seq<Seq<char>> {
    seq![
        "ta.sma"@,
        "ta.ema"@,
        "ta.rma"@,
        "ta.wma"@,
        "ta.vwma"@,
        "ta.hma"@,
        "ta.alma"@,
        "ta.swma"@,
        "ta.linreg"@,
        "ta.rsi"@,
        "ta.atr"@,
        "ta.tr"@,
        "ta.cci"@,
        "ta.mfi"@,
        "ta.cmo"@,
        "ta.cog"@,
        "ta.mom"@,
        "ta.roc"@,
        "ta.stdev"@,
        "ta.dev"@,
        "ta.variance"@,
        "ta.highest"@,
        "ta.lowest"@,
        "ta.highestbars"@,
        "ta.lowestbars"@,
        "ta.barssince"@,
        "ta.valuewhen"@,
        "ta.cum"@,
        "ta.change"@,
        "ta.percentrank"@,
        "ta.median"@,
        "ta.mode"@,
        "ta.range"@,
        "ta.bb"@,
        "ta.bbw"@,
        "ta.kc"@,
        "ta.kcw"@,
        "ta.macd"@,
        "ta.dmi"@,
        "ta.sar"@,
        "ta.supertrend"@,
        "ta.wpr"@,
        "ta.correlation"@,
    ]
}

/// Node `c` is an `if` or a loop.
pub open spec fn is_branch(m: Model, c: int) -> bool {
    let kind = m.nodes[c].kind;
    kind == "if_statement"@ || kind == "for_statement"@ || kind == "for_in_statement"@ || kind
        == "while_statement"@
}

/// The call at node `x` stands in the body `body` of the `if` or loop `c`, and in no
/// `if` or loop inside that body: the body of an `if` is its consequence.
pub open spec fn calls_in_branch(m: Model, c: int, body: int, x: int) -> bool {
    &&& is_branch(m, c)
    &&& field_child(m.nodes, c, "consequence"@) == Some(body) || (field_child(
        m.nodes,
        c,
        "consequence"@,
    ) is None && field_child(m.nodes, c, "body"@) == Some(body))
    &&& x == body || lies_below(m.nodes, body, x)
    &&& forall|b: int|
        #![trigger m.nodes[b]]
        body < b <= x && is_branch(m, b) ==> x != b && !lies_below(m.nodes, b, x)
}

/// The report on a stateful call that is not asked for on every bar.
pub open spec fn stateful_report(m: Model, x: int, name: Seq<char>) -> DiagFacts {
    DiagFacts {
        start_byte: m.nodes[x].start_byte,
        end_byte: m.nodes[x].end_byte,
        severity: Severity::Warning,
        code: "ta-conditional"@,
        message: "`"@ + name
            + "` is stateful and should be called on every bar; calling it only inside a conditional can make its series inconsistent"@,
    }
}

proof fn lemma_stateful_names(name: Seq<char>)
    ensures
        is_stateful(name) <==> stateful_names().contains(name),
{
    let names = stateful_names();
    if names.contains(name) {
        let i = choose|i: int| 0 <= i < names.len() && names[i] == name;
        assert(is_stateful(names[i]));
    }
    if is_stateful(name) {
        assert(names[0] == "ta.sma"@);
        assert(names[1] == "ta.ema"@);
        assert(names[2] == "ta.rma"@);
        assert(names[3] == "ta.wma"@);
        assert(names[4] == "ta.vwma"@);
        assert(names[5] == "ta.hma"@);
        assert(names[6] == "ta.alma"@);
        assert(names[7] == "ta.swma"@);
        assert(names[8] == "ta.linreg"@);
        assert(names[9] == "ta.rsi"@);
        assert(names[10] == "ta.atr"@);
        assert(names[11] == "ta.tr"@);
        assert(names[12] == "ta.cci"@);
        assert(names[13] == "ta.mfi"@);
        assert(names[14] == "ta.cmo"@);
        assert(names[15] == "ta.cog"@);
        assert(names[16] == "ta.mom"@);
        assert(names[17] == "ta.roc"@);
        assert(names[18] == "ta.stdev"@);
        assert(names[19] == "ta.dev"@);
        assert(names[20] == "ta.variance"@);
        assert(names[21] == "ta.highest"@);
        assert(names[22] == "ta.lowest"@);
        assert(names[23] == "ta.highestbars"@);
        assert(names[24] == "ta.lowestbars"@);
        assert(names[25] == "ta.barssince"@);
        assert(names[26] == "ta.valuewhen"@);
        assert(names[27] == "ta.cum"@);
        assert(names[28] == "ta.change"@);
        assert(names[29] == "ta.percentrank"@);
        assert(names[30] == "ta.median"@);
        assert(names[31] == "ta.mode"@);
        assert(names[32] == "ta.range"@);
        assert(names[33] == "ta.bb"@);
        assert(names[34] == "ta.bbw"@);
        assert(names[35] == "ta.kc"@);
        assert(names[36] == "ta.kcw"@);
        assert(names[37] == "ta.macd"@);
        assert(names[38] == "ta.dmi"@);
        assert(names[39] == "ta.sar"@);
        assert(names[40] == "ta.supertrend"@);
        assert(names[41] == "ta.wpr"@);
        assert(names[42] == "ta.correlation"@);
    }
}

/// A call of a stateful function in the body of an `if` or a loop is reported, by the
/// innermost one.
pub proof fn law_conditional_calls_are_reported(
    m: Model,
    c: int,
    body: int,
    x: int,
    name: Seq<char>,
)
    requires
        m.wf(),
        0 <= c < m.nodes.len(),
        0 <= x < m.nodes.len(),
        calls_in_branch(m, c, body, x),
        call_name(m, x) == Some(name),
        stateful_names().contains(name),
    ensures
        lints_of(m).contains(stateful_report(m, x, name)),
{
    lemma_words_differ();
    lemma_stateful_names(name);
    lemma_field_child(m.nodes, c, "consequence"@);
    lemma_field_child(m.nodes, c, "body"@);
    lemma_below_end(m.nodes, m.nodes[body].depth, body + 1);
    assert forall|b: int|
        #![trigger m.nodes[b]]
        body + 1 <= b <= x && is_conditional(m.nodes[b].kind) implies end_of(m.nodes, b) <= x by {
        assert(is_branch(m, b));
        assert(x != b && !lies_below(m.nodes, b, x));
    }
    law_direct_calls_are_reported(m, c, x);
    let list = lints_at(m, c);
    let d = stateful_report(m, x, name);
    assert(stateful_at(m, x)[0] == d);
    let y = choose|y: int| 0 <= y < list.len() && list[y] == d;
    lemma_reported(m, c, y);
}

proof fn lemma_stateful_source(m: Model, list: Seq<int>, k: int, x: int)
    requires
        0 <= k <= list.len(),
        0 <= x < stateful_upto(m, list, k).len(),
    ensures
        exists|y: int|
            0 <= y < k && stateful_at(m, #[trigger] list[y]).contains(
                stateful_upto(m, list, k)[x],
            ),
    decreases k,
{
    let before = stateful_upto(m, list, k - 1);
    let d = stateful_upto(m, list, k)[x];
    if x < before.len() {
        lemma_stateful_source(m, list, k - 1, x);
        assert(d == before[x]);
    } else {
        assert(stateful_at(m, list[k - 1])[x - before.len()] == d);
    }
}

/// Nothing else is reported as a stateful call in a conditional: neither another
/// function, nor a call outside every body.
pub proof fn law_conditional_reports_are_right(m: Model, k: int)
    requires
        m.wf(),
        0 <= k < lints_of(m).len(),
        lints_of(m)[k].code == "ta-conditional"@,
    ensures
        exists|c: int, body: int, x: int|
            0 <= c < m.nodes.len() && 0 <= x < m.nodes.len() && #[trigger] calls_in_branch(
                m,
                c,
                body,
                x,
            ) && (call_name(m, x) matches Some(name) && stateful_names().contains(name)
                && lints_of(m)[k] == stateful_report(m, x, name)),
{
    lemma_words_differ();
    let d = lints_of(m)[k];
    let c = lemma_source_of_code(m, k);
    lemma_code_of_kind(m, c, d);
    let body = body_of(m, c)->0;
    let list = body_nodes(m, body);
    let diags = conditional_diags(m, c);
    let z = choose|z: int| 0 <= z < diags.len() && diags[z] == d;
    lemma_stateful_source(m, list, list.len() as int, z);
    let y = choose|y: int|
        0 <= y < list.len() && stateful_at(m, #[trigger] list[y]).contains(diags[z]);
    let x = list[y];
    lemma_body_child(m, c);
    assert(list.contains(x));
    lemma_body_nodes(m, body, x);
    lemma_below_end(m.nodes, m.nodes[body].depth, body + 1);
    let name = call_name(m, x)->0;
    lemma_stateful_names(name);
    assert forall|b: int|
        #![trigger m.nodes[b]]
        body < b <= x && is_branch(m, b) implies x != b && !lies_below(m.nodes, b, x) by {
        assert(is_conditional(m.nodes[b].kind));
        lemma_below_end(m.nodes, m.nodes[b].depth, b + 1);
    }
    assert(calls_in_branch(m, c, body, x));
}

/// The codes of the logic-lint's reports.
pub proof fn law_lint_codes(m: Model, x: int)
    requires
        0 <= x < lints_of(m).len(),
    ensures
        ({
            let code = lints_of(m)[x].code;
            ||| code == "lookahead-bias"@
            ||| code == "redundant-na"@
            ||| code == "future-leak"@
            ||| code == "self-assignment"@
            ||| code == "duplicate-parameter"@
            ||| code == "ta-conditional"@
            ||| code == "strategy-no-orders"@
            ||| code == "strategy-no-exit"@
        }),
{
    let code = lints_of(m)[x].code;
    if code != "strategy-no-orders"@ && code != "strategy-no-exit"@ {
        let i = lemma_source_of_code(m, x);
        lemma_code_of_kind(m, i, lints_of(m)[x]);
    }
}

// ---------------------------------------------------------------------------
// Checking
// ---------------------------------------------------------------------------

/// Append the reports of the logic-lint.
pub(crate) fn check(doc: &Document, out: &mut Vec<Diagnostic>)
    requires
        doc.wf(),
    ensures
        views(final(out)@) == views(old(out)@) + lints_of(doc@),
{
    let ghost start = views(out@);
    let mut i: usize = 0;
    proof {
        assert(start =~= start + lints_upto(doc@, 0));
    }
    while i < doc.tree().len()
        invariant
            doc.wf(),
            i <= doc@.nodes.len(),
            views(out@) == start + lints_upto(doc@, i as int),
        decreases doc@.nodes.len() - i,
    {
        lint_node(doc, i, out);
        proof {
            assert(views(out@) =~= start + lints_upto(doc@, i + 1));
        }
        i = i + 1;
    }
    check_strategy_orders(doc, out);
    proof {
        assert(views(out@) =~= start + lints_of(doc@));
    }
}

fn lint_node(doc: &Document, i: usize, out: &mut Vec<Diagnostic>)
    requires
        doc.wf(),
        i < doc@.nodes.len(),
    ensures
        views(final(out)@) == views(old(out)@) + lints_at(doc@, i as int),
{
    let node = &doc.tree()[i];
    proof {
        assert(node@ == doc@.nodes[i as int]);
    }
    if node.is("call") {
        check_request_security_lookahead(doc, i, out);
        check_redundant_na(doc, i, out);
        proof {
            assert(views(out@) =~= views(old(out)@) + lints_at(doc@, i as int));
        }
    } else if node.is("subscript") {
        check_negative_history(doc, i, out);
    } else if node.is("reassignment") {
        check_self_assignment(doc, i, out);
    } else if node.is("function_declaration_statement") {
        check_duplicate_params(doc, i, out);
    } else if is_conditional_node(node) {
        check_ta_stateful_in_conditional(doc, i, out);
    } else {
        proof {
            assert(views(out@) =~= views(out@) + lints_at(doc@, i as int));
        }
    }
}

/// Append one report on node `i`.
fn report(
    doc: &Document,
    i: usize,
    severity: Severity,
    code: &'static str,
    message: String,
    out: &mut Vec<Diagnostic>,
)
    requires
        doc.wf(),
        i < doc@.nodes.len(),
    ensures
        views(final(out)@) == views(old(out)@) + seq![
            node_diag(doc@, i as int, severity, code@, message@),
        ],
{
    let ghost before = out@;
    let node = &doc.tree()[i];
    let diag = Diagnostic {
        start_byte: node.start_byte,
        end_byte: node.end_byte,
        severity,
        code,
        message,
    };
    proof {
        assert(node@ == doc@.nodes[i as int]);
        lemma_views_push(before, diag);
        assert(views(before).push(diag@) =~= views(before) + seq![diag@]);
    }
    out.push(diag);
}

/// Scan the *immediate* body/consequence block of a conditional (`if`/`for`/
/// `while`) for direct stateful `ta.*` calls and warn on each. Only the body is
/// scanned — never the condition — and the scan does NOT descend into nested
/// conditionals: each nested conditional's own visit owns its direct calls.
fn check_ta_stateful_in_conditional(doc: &Document, i: usize, out: &mut Vec<Diagnostic>)
    requires
        doc.wf(),
        i < doc@.nodes.len(),
    ensures
        views(final(out)@) == views(old(out)@) + conditional_diags(doc@, i as int),
{
    let body = match child_by_field(doc.tree(), i, "consequence") {
        Some(b) => Some(b),
        None => child_by_field(doc.tree(), i, "body"),
    };
    match body {
        Some(b) => collect_direct_stateful_ta(doc, b, out),
        None => {
            proof {
                assert(views(out@) =~= views(out@) + conditional_diags(doc@, i as int));
            }
        },
    }
}

proof fn lemma_stateful_prefix(m: Model, a: Seq<int>, b: Seq<int>, k: int)
    requires
        0 <= k <= a.len(),
    ensures
        stateful_upto(m, a + b, k) == stateful_upto(m, a, k),
    decreases k,
{
    if k > 0 {
        lemma_stateful_prefix(m, a, b, k - 1);
        assert((a + b)[k - 1] == a[k - 1]);
    }
}

/// Collect the stateful `ta.*` calls of a body, but stop at any nested
/// conditional (its own visit will report its calls).
fn collect_direct_stateful_ta(doc: &Document, body: usize, out: &mut Vec<Diagnostic>)
    requires
        doc.wf(),
        body < doc@.nodes.len(),
    ensures
        ({
            let list = body_nodes(doc@, body as int);
            views(final(out)@) == views(old(out)@) + stateful_upto(doc@, list, list.len() as int)
        }),
{
    let ghost m = doc@;
    let ghost start = views(out@);
    let ghost list = body_nodes(m, body as int);
    let end: usize = subtree_end(doc.tree(), body);
    let mut j: usize = body + 1;
    let ghost mut seen: Seq<int> = seq![body as int];
    report_stateful(doc, body, out);
    proof {
        reveal_with_fuel(stateful_upto, 2);
        assert(views(out@) =~= start + stateful_upto(m, seen, 1));
    }
    while j < end
        invariant
            doc.wf(),
            m == doc@,
            body < j <= m.nodes.len(),
            end <= m.nodes.len(),
            list == seen + direct_nodes(m, j as int, end as int),
            views(out@) == start + stateful_upto(m, seen, seen.len() as int),
        decreases m.nodes.len() - j,
    {
        let node = &doc.tree()[j];
        proof {
            assert(node@ == m.nodes[j as int]);
        }
        if is_conditional_node(node) {
            j = subtree_end(doc.tree(), j);
        } else {
            let ghost before = seen;
            report_stateful(doc, j, out);
            proof {
                seen = before.push(j as int);
                assert(list =~= seen + direct_nodes(m, j + 1, end as int));
                lemma_stateful_prefix(m, before, seq![j as int], before.len() as int);
                assert(seen =~= before + seq![j as int]);
                assert(views(out@) =~= start + stateful_upto(m, seen, seen.len() as int));
            }
            j = j + 1;
        }
    }
    proof {
        assert(direct_nodes(m, j as int, end as int) =~= Seq::<int>::empty());
        assert(seen =~= list);
    }
}

fn report_stateful(doc: &Document, i: usize, out: &mut Vec<Diagnostic>)
    requires
        doc.wf(),
        i < doc@.nodes.len(),
    ensures
        views(final(out)@) == views(old(out)@) + stateful_at(doc@, i as int),
{
    if let Some(name) = called_name(doc, i) {
        if is_stateful_ta(name.as_str()) {
            let message = concat3(
                "`",
                name.as_str(),
                "` is stateful and should be called on every bar; calling it only inside a conditional can make its series inconsistent",
            );
            report(doc, i, Severity::Warning, "ta-conditional", message, out);
            return;
        }
    }
    proof {
        assert(views(out@) =~= views(out@) + stateful_at(doc@, i as int));
    }
}

/// `x := x` is a no-op. Only the plain `:=` operator fires, and only between two
/// bare identifiers.
fn check_self_assignment(doc: &Document, i: usize, out: &mut Vec<Diagnostic>)
    requires
        doc.wf(),
        i < doc@.nodes.len(),
    ensures
        views(final(out)@) == views(old(out)@) + self_assignment_diags(doc@, i as int),
{
    let nodes = doc.tree();
    match (
        child_by_field(nodes, i, "operator"),
        child_by_field(nodes, i, "variable"),
        child_by_field(nodes, i, "value"),
    ) {
        (Some(operator), Some(variable), Some(value)) => {
            proof {
                assert(nodes@[variable as int]@ == doc@.nodes[variable as int]);
                assert(nodes@[value as int]@ == doc@.nodes[value as int]);
            }
            let name = doc.node_text(variable);
            if str_eq(doc.node_text(operator), ":=") && nodes[variable].is("identifier")
                && nodes[value].is("identifier") && str_eq(name, doc.node_text(value)) {
                let mut message = concat3("Self-assignment `", name, " := ");
                message.append(name);
                message.append("` has no effect");
                report(doc, i, Severity::Warning, "self-assignment", message, out);
                return;
            }
        },
        _ => {},
    }
    proof {
        assert(views(out@) =~= views(out@) + self_assignment_diags(doc@, i as int));
    }
}

fn repeats_earlier(doc: &Document, ids: &Vec<usize>, k: usize) -> (r: bool)
    requires
        doc.wf(),
        k < ids@.len(),
        forall|x: int| 0 <= x < ids@.len() ==> #[trigger] ids@[x] < doc@.nodes.len(),
    ensures
        r == repeats(doc@, indices(ids@), k as int),
{
    let ghost list = indices(ids@);
    let nodes = doc.tree();
    proof {
        assert(forall|x: int| 0 <= x < ids@.len() ==> list[x] == #[trigger] ids@[x]);
        assert(nodes@[ids@[k as int] as int]@ == doc@.nodes[list[k as int]]);
    }
    if !nodes[ids[k]].is("identifier") {
        return false;
    }
    let name = doc.node_text(ids[k]);
    let mut j: usize = 0;
    while j < k
        invariant
            doc.wf(),
            list == indices(ids@),
            views(nodes@) == doc@.nodes,
            j <= k < ids@.len(),
            forall|x: int| 0 <= x < ids@.len() ==> #[trigger] ids@[x] < doc@.nodes.len(),
            name@ == doc@.node_text(list[k as int]),
            doc@.nodes[list[k as int]].kind == "identifier"@,
            forall|x: int|
                #![trigger list[x]]
                0 <= x < j ==> !(doc@.nodes[list[x]].kind == "identifier"@ && doc@.node_text(list[x])
                    == name@),
        decreases k - j,
    {
        proof {
            assert(list[j as int] == ids@[j as int]);
            assert(nodes@[ids@[j as int] as int]@ == doc@.nodes[list[j as int]]);
        }
        if nodes[ids[j]].is("identifier") && str_eq(doc.node_text(ids[j]), name) {
            return true;
        }
        j = j + 1;
    }
    false
}

/// Two parameters with the same name in a single function/method definition is
/// a genuine Pine error. Each duplicate is reported once, at the redeclaring
/// occurrence.
fn check_duplicate_params(doc: &Document, i: usize, out: &mut Vec<Diagnostic>)
    requires
        doc.wf(),
        i < doc@.nodes.len(),
    ensures
        views(final(out)@) == views(old(out)@) + duplicate_diags(doc@, i as int),
{
    let ids = children_by_field(doc.tree(), i, "argument");
    let ghost start = views(out@);
    let ghost list = indices(ids@);
    let mut k: usize = 0;
    proof {
        assert(start =~= start + duplicates_upto(doc@, list, 0));
    }
    while k < ids.len()
        invariant
            doc.wf(),
            k <= ids@.len(),
            list == indices(ids@),
            forall|x: int| 0 <= x < ids@.len() ==> i < #[trigger] ids@[x] < doc@.nodes.len(),
            views(out@) == start + duplicates_upto(doc@, list, k as int),
        decreases ids@.len() - k,
    {
        if repeats_earlier(doc, &ids, k) {
            let message = concat3(
                "Duplicate parameter `",
                doc.node_text(ids[k]),
                "` in function definition",
            );
            report(doc, ids[k], Severity::Error, "duplicate-parameter", message, out);
            proof {
                assert(list[k as int] == ids@[k as int]);
                assert(views(out@) =~= start + duplicates_upto(doc@, list, k + 1));
            }
        }
        k = k + 1;
    }
}

/// `na(na(x))` is redundant: `na()` already returns a bool. Fires only when the
/// outer call's function is exactly `na` and the first argument is itself a call
/// of exactly `na`.
fn check_redundant_na(doc: &Document, i: usize, out: &mut Vec<Diagnostic>)
    requires
        doc.wf(),
        i < doc@.nodes.len(),
    ensures
        views(final(out)@) == views(old(out)@) + redundant_na_diags(doc@, i as int),
{
    if calls_na(doc, i) {
        if let Some(args) = child_by_field(doc.tree(), i, "arguments") {
            let list = named_children(doc.tree(), args);
            proof {
                assert(indices(list@).len() == list@.len());
                if list@.len() > 0 {
                    assert(indices(list@)[0] == list@[0]);
                }
            }
            if list.len() > 0 && calls_na(doc, list[0]) {
                report(
                    doc,
                    i,
                    Severity::Warning,
                    "redundant-na",
                    "`na(na(x))` is redundant; the inner `na()` already returns a bool".to_owned(),
                    out,
                );
                return;
            }
        }
    }
    proof {
        assert(views(out@) =~= views(out@) + redundant_na_diags(doc@, i as int));
    }
}

fn calls_na(doc: &Document, i: usize) -> (r: bool)
    requires
        doc.wf(),
        i < doc@.nodes.len(),
    ensures
        r == (call_name(doc@, i as int) == Some("na"@)),
{
    match called_name(doc, i) {
        Some(name) => str_eq(name.as_str(), "na"),
        None => false,
    }
}

/// What a document says of a strategy.
struct StrategyScan {
    decl: Option<usize>,
    has_order: bool,
    has_import: bool,
    entries: usize,
    has_exit: bool,
}

impl View for StrategyScan {
    type V = ScanFacts;

    closed spec fn view(&self) -> ScanFacts {
        ScanFacts {
            decl: opt_index(self.decl),
            has_order: self.has_order,
            has_import: self.has_import,
            entries: self.entries as int,
            has_exit: self.has_exit,
        }
    }
}

fn is_top_level_call(doc: &Document, i: usize) -> (r: bool)
    requires
        doc.wf(),
        i < doc@.nodes.len(),
    ensures
        r == is_top_level(doc@, i as int),
{
    let nodes = doc.tree();
    match parent(nodes, i) {
        Some(p) => {
            proof {
                assert(nodes@[p as int]@ == doc@.nodes[p as int]);
            }
            if nodes[p].is("simple_statement") {
                match parent(nodes, p) {
                    Some(g) => {
                        proof {
                            assert(nodes@[g as int]@ == doc@.nodes[g as int]);
                        }
                        nodes[g].is("source_file")
                    },
                    None => false,
                }
            } else {
                false
            }
        },
        None => false,
    }
}

fn scan_strategy(doc: &Document) -> (r: StrategyScan)
    requires
        doc.wf(),
    ensures
        r@ == scan_upto(doc@, doc@.nodes.len() as int),
        r.decl matches Some(d) ==> d < doc@.nodes.len(),
{
    let ghost m = doc@;
    let count: usize = doc.tree().len();
    let mut scan = StrategyScan {
        decl: None,
        has_order: false,
        has_import: false,
        entries: 0,
        has_exit: false,
    };
    let mut i: usize = 0;
    while i < count
        invariant
            doc.wf(),
            m == doc@,
            count == m.nodes.len(),
            i <= count,
            scan@ == scan_upto(m, i as int),
            scan.entries <= i,
            scan.decl matches Some(d) ==> d < m.nodes.len(),
        decreases count - i,
    {
        let node = &doc.tree()[i];
        proof {
            assert(node@ == m.nodes[i as int]);
        }
        if node.is("import") {
            scan.has_import = true;
        }
        if let Some(called) = called_name(doc, i) {
            let name = called.as_str();
            if scan.decl.is_none() && str_eq(name, "strategy") && is_top_level_call(doc, i) {
                scan.decl = Some(i);
            }
            if str_eq(name, "strategy.entry") || str_eq(name, "strategy.order") {
                scan.has_order = true;
                scan.entries = scan.entries + 1;
            }
            if str_eq(name, "strategy.exit") || str_eq(name, "strategy.close") || str_eq(
                name,
                "strategy.close_all",
            ) {
                scan.has_order = true;
                scan.has_exit = true;
            }
        }
        i = i + 1;
    }
    scan
}

/// A `strategy(...)` script that never places an order, or that opens a position
/// once and never closes it, is almost certainly incomplete. Document-wide
/// advisory (Info). Skipped entirely when the file has any `import` (an order
/// could come from an imported library).
fn check_strategy_orders(doc: &Document, out: &mut Vec<Diagnostic>)
    requires
        doc.wf(),
    ensures
        views(final(out)@) == views(old(out)@) + strategy_diags(doc@),
{
    let scan = scan_strategy(doc);
    if !scan.has_import {
        if let Some(decl) = scan.decl {
            if !scan.has_order {
                report(
                    doc,
                    decl,
                    Severity::Info,
                    "strategy-no-orders",
                    "`strategy()` script never places an order (no strategy.entry/order/exit/close/close_all call found)".to_owned(),
                    out,
                );
                return;
            }
            if scan.entries == 1 && !scan.has_exit {
                report(
                    doc,
                    decl,
                    Severity::Info,
                    "strategy-no-exit",
                    "`strategy.entry` has no matching exit (no strategy.exit/close/close_all call found); positions may never be closed".to_owned(),
                    out,
                );
                return;
            }
        }
    }
    proof {
        assert(views(out@) =~= views(out@) + strategy_diags(doc@));
    }
}

/// `request.security(..., lookahead=barmerge.lookahead_on)` repaints — the
/// signature Pine lookahead-bias pitfall.
fn check_request_security_lookahead(doc: &Document, i: usize, out: &mut Vec<Diagnostic>)
    requires
        doc.wf(),
        i < doc@.nodes.len(),
    ensures
        views(final(out)@) == views(old(out)@) + lookahead_diags(doc@, i as int),
{
    if let Some(called) = called_name(doc, i) {
        let name = called.as_str();
        if str_eq(name, "request.security") || str_eq(name, "request.security_lower_tf") {
            if let Some(args) = child_by_field(doc.tree(), i, "arguments") {
                // `lookahead` is the 5th positional parameter (index 4) or a named arg.
                if let Some(value) = find_arg(doc, args, "lookahead", 4) {
                    let on = match dotted_name(doc, value) {
                        Some(text) => str_eq(text.as_str(), "barmerge.lookahead_on"),
                        None => str_eq(doc.node_text(value), "barmerge.lookahead_on"),
                    };
                    if on {
                        report(
                            doc,
                            value,
                            Severity::Warning,
                            "lookahead-bias",
                            "request.security lookahead set to barmerge.lookahead_on; this can introduce lookahead bias".to_owned(),
                            out,
                        );
                        return;
                    }
                }
            }
        }
    }
    proof {
        assert(views(out@) =~= views(out@) + lookahead_diags(doc@, i as int));
    }
}

/// A negative history offset (`close[-1]`) references future bars.
fn check_negative_history(doc: &Document, i: usize, out: &mut Vec<Diagnostic>)
    requires
        doc.wf(),
        i < doc@.nodes.len(),
    ensures
        views(final(out)@) == views(old(out)@) + future_leak_diags(doc@, i as int),
{
    if let Some(offset) = child_by_field(doc.tree(), i, "offset") {
        let node = &doc.tree()[offset];
        proof {
            assert(node@ == doc@.nodes[offset as int]);
        }
        if node.is("unary_operation") {
            let text = to_chars(doc.node_text(offset));
            let start: usize = skip_space(&text, 0, text.len());
            proof {
                assert(text@.subrange(0, text@.len() as int) =~= text@);
            }
            if start < text.len() && text[start] == '-' {
                report(
                    doc,
                    i,
                    Severity::Warning,
                    "future-leak",
                    "Negative history reference reads future bars (lookahead)".to_owned(),
                    out,
                );
                return;
            }
        }
    }
    proof {
        assert(views(out@) =~= views(out@) + future_leak_diags(doc@, i as int));
    }
}

fn is_named_arg(doc: &Document, c: usize, name: &str) -> (r: bool)
    requires
        doc.wf(),
        c < doc@.nodes.len(),
    ensures
        r == is_keyword_arg(doc@, c as int, name@),
{
    let node = &doc.tree()[c];
    proof {
        assert(node@ == doc@.nodes[c as int]);
    }
    if node.is("keyword_argument") {
        match child_by_field(doc.tree(), c, "key") {
            Some(key) => str_eq(doc.node_text(key), name),
            None => false,
        }
    } else {
        false
    }
}

/// The value node of a named arg `name`, else the positional arg at `pos_index`.
fn find_arg(doc: &Document, args: usize, name: &str, pos_index: usize) -> (r: Option<usize>)
    requires
        doc.wf(),
        args < doc@.nodes.len(),
    ensures
        opt_index(r) == arg_of(doc@, args as int, name@, pos_index as int),
        r matches Some(v) ==> v < doc@.nodes.len(),
{
    let ghost m = doc@;
    let list = named_children(doc.tree(), args);
    let ghost all = indices(list@);
    let ghost p = |c: int| m.nodes[c].kind != "keyword_argument"@;
    let mut positional: usize = 0;
    let mut found: Option<usize> = None;
    let mut k: usize = 0;
    proof {
        reveal(Seq::filter);
        assert(all.take(0) =~= Seq::<int>::empty());
        assert(all.skip(0) =~= all);
    }
    while k < list.len()
        invariant
            doc.wf(),
            m == doc@,
            all == indices(list@),
            all == named_children_of(m.nodes, args as int),
            p == (|c: int| m.nodes[c].kind != "keyword_argument"@),
            k <= list@.len(),
            forall|x: int| 0 <= x < list@.len() ==> args < #[trigger] list@[x] < m.nodes.len(),
            keyword_arg(m, all, name@) == keyword_arg(m, all.skip(k as int), name@),
            positional == all.take(k as int).filter(p).len(),
            positional <= k,
            opt_index(found) == if pos_index < positional {
                Some(all.take(k as int).filter(p)[pos_index as int])
            } else {
                None
            },
            found matches Some(v) ==> v < m.nodes.len(),
        decreases list@.len() - k,
    {
        let c: usize = list[k];
        let node = &doc.tree()[c];
        proof {
            assert(all[k as int] == c);
            assert(node@ == m.nodes[c as int]);
            assert(all.skip(k as int).drop_first() =~= all.skip(k + 1));
            assert(all.skip(k as int)[0] == c);
            lemma_filter_take(all, p, k as int);
        }
        if node.is("keyword_argument") {
            if is_named_arg(doc, c, name) {
                return child_by_field(doc.tree(), c, "value");
            }
        } else {
            if positional == pos_index {
                found = Some(c);
            }
            positional = positional + 1;
        }
        k = k + 1;
    }
    proof {
        assert(all.take(all.len() as int) =~= all);
    }
    found
}

}
