//! Inlay hints: parameter names on the positional arguments of builtin calls.

use vstd::prelude::*;
use vstd::string::*;

use crate::builtins::{function, BuiltinFunction, Builtins};
use crate::document::Document;
use crate::logiclint::positional_args;
use crate::lsp::{byte_position, place, InlayFacts, InlayHint};
use crate::strings::{concat, lemma_views_empty, lemma_views_push, views};
use crate::symbols::{call_name, called_name};
use crate::syntax::{
    child_by_field, field_child, indices, lemma_filter_take, named_children, named_children_of, Model,
};

verus! {

/// The hint for argument `c`, which is parameter number `p` of `f`.
pub open spec fn hint_of(m: Model, f: BuiltinFunction, c: int, p: int) -> InlayFacts {
    InlayFacts {
        position: place(m.text, m.nodes[c].start_byte),
        label: f.parameters@[p].name@ + ":"@,
    }
}

/// The hints for the first `k` positional arguments; those past the last
/// parameter have none.
pub open spec fn hints_upto(m: Model, f: BuiltinFunction, args: Seq<int>, k: int) -> Seq<InlayFacts>
    decreases k,
{
    if k <= 0 {
        Seq::empty()
    } else if k - 1 < f.parameters@.len() {
        hints_upto(m, f, args, k - 1).push(hint_of(m, f, args[k - 1], k - 1))
    } else {
        hints_upto(m, f, args, k - 1)
    }
}

/// The hints in node `i`, where it is a call of a builtin function. Keyword
/// arguments are named already.
pub open spec fn hints_at(db: Builtins, m: Model, i: int) -> Seq<InlayFacts> {
    match call_name(m, i) {
        Some(name) => match (db.function_at(name), field_child(m.nodes, i, "arguments"@)) {
            (Some(f), Some(args)) => {
                let list = positional_args(m, named_children_of(m.nodes, args));
                hints_upto(m, db.functions@[f], list, list.len() as int)
            },
            _ => Seq::empty(),
        },
        None => Seq::empty(),
    }
}

/// The hints in the first `k` nodes.
pub open spec fn inlays_upto(db: Builtins, m: Model, k: int) -> Seq<InlayFacts>
    decreases k,
{
    if k <= 0 {
        Seq::empty()
    } else {
        inlays_upto(db, m, k - 1) + hints_at(db, m, k - 1)
    }
}

proof fn lemma_hints_upto(m: Model, f: BuiltinFunction, args: Seq<int>, k: int)
    requires
        0 <= k <= args.len(),
    ensures
        hints_upto(m, f, args, k).len() == if k < f.parameters@.len() {
            k
        } else {
            f.parameters@.len() as int
        },
        forall|x: int|
            0 <= x < hints_upto(m, f, args, k).len() ==> #[trigger] hints_upto(m, f, args, k)[x]
                == hint_of(m, f, args[x], x),
    decreases k,
{
    if k > 0 {
        lemma_hints_upto(m, f, args, k - 1);
    }
}

/// The hint on the `x`th positional argument is the name of the `x`th parameter,
/// with a colon behind it.
pub proof fn law_hints_name_their_parameters(
    m: Model,
    f: BuiltinFunction,
    args: Seq<int>,
    k: int,
    x: int,
)
    requires
        0 <= k <= args.len(),
        0 <= x < hints_upto(m, f, args, k).len(),
    ensures
        x < f.parameters@.len(),
        hints_upto(m, f, args, k)[x].label == f.parameters@[x].name@ + ":"@,
        hints_upto(m, f, args, k)[x].position == place(m.text, m.nodes[args[x]].start_byte),
{
    lemma_hints_upto(m, f, args, k);
}

/// Argument `c` of the call at node `i` is the one number `p` without a keyword, and
/// parameter number `p` of the function that is called is `f`'s.
pub open spec fn passes(
    db: Builtins,
    m: Model,
    i: int,
    f: int,
    args: int,
    c: int,
    p: int,
) -> bool {
    let plain = named_children_of(m.nodes, args).filter(
        |x: int| m.nodes[x].kind != "keyword_argument"@,
    );
    &&& call_name(m, i) matches Some(name) && db.function_at(name) == Some(f)
    &&& field_child(m.nodes, i, "arguments"@) == Some(args)
    &&& 0 <= p < plain.len()
    &&& plain[p] == c
    &&& p < db.functions@[f].parameters@.len()
}

proof fn lemma_inlay_found(db: Builtins, m: Model, k: int, i: int, y: int)
    requires
        0 <= i < k <= m.nodes.len(),
        0 <= y < hints_at(db, m, i).len(),
    ensures
        inlays_upto(db, m, k).contains(hints_at(db, m, i)[y]),
    decreases k,
{
    let before = inlays_upto(db, m, k - 1);
    let now = inlays_upto(db, m, k);
    let h = hints_at(db, m, i)[y];
    if i < k - 1 {
        lemma_inlay_found(db, m, k - 1, i, y);
        let x = choose|x: int| 0 <= x < before.len() && before[x] == h;
        assert(now[x] == h);
    } else {
        assert(now[before.len() + y] == h);
    }
}

proof fn lemma_inlay_source(db: Builtins, m: Model, k: int, x: int)
    requires
        0 <= k <= m.nodes.len(),
        0 <= x < inlays_upto(db, m, k).len(),
    ensures
        exists|i: int| 0 <= i < k && #[trigger] hints_at(db, m, i).contains(inlays_upto(db, m, k)[x]),
    decreases k,
{
    let before = inlays_upto(db, m, k - 1);
    let h = inlays_upto(db, m, k)[x];
    if x < before.len() {
        lemma_inlay_source(db, m, k - 1, x);
        assert(h == before[x]);
        let i = choose|i: int| 0 <= i < k - 1 && #[trigger] hints_at(db, m, i).contains(before[x]);
        assert(hints_at(db, m, i).contains(h));
    } else {
        assert(hints_at(db, m, k - 1)[x - before.len()] == h);
        assert(hints_at(db, m, k - 1).contains(h));
    }
}

/// Every argument without a keyword of every call of a builtin function has a hint at
/// its start, the name of its parameter and a colon, as long as there are parameters.
pub proof fn law_arguments_have_hints(
    db: Builtins,
    m: Model,
    i: int,
    f: int,
    args: int,
    c: int,
    p: int,
)
    requires
        0 <= i < m.nodes.len(),
        passes(db, m, i, f, args, c, p),
    ensures
        inlays_upto(db, m, m.nodes.len() as int).contains(
            InlayFacts {
                position: place(m.text, m.nodes[c].start_byte),
                label: db.functions@[f].parameters@[p].name@ + ":"@,
            },
        ),
{
    let list = positional_args(m, named_children_of(m.nodes, args));
    assert(list =~= named_children_of(m.nodes, args).filter(
        |x: int| m.nodes[x].kind != "keyword_argument"@,
    ));
    lemma_hints_upto(m, db.functions@[f], list, list.len() as int);
    lemma_inlay_found(db, m, m.nodes.len() as int, i, p);
}

/// A call of a builtin function has one hint for each argument without a keyword that
/// there is a parameter for, in the order of the arguments.
pub proof fn law_one_hint_for_each_argument(db: Builtins, m: Model, i: int, f: int, args: int)
    requires
        call_name(m, i) matches Some(name) && db.function_at(name) == Some(f),
        field_child(m.nodes, i, "arguments"@) == Some(args),
    ensures
        ({
            let plain = named_children_of(m.nodes, args).filter(
                |x: int| m.nodes[x].kind != "keyword_argument"@,
            ).len();
            let known = db.functions@[f].parameters@.len();
            hints_at(db, m, i).len() == if plain < known {
                plain
            } else {
                known
            }
        }),
{
    let list = positional_args(m, named_children_of(m.nodes, args));
    assert(list =~= named_children_of(m.nodes, args).filter(
        |x: int| m.nodes[x].kind != "keyword_argument"@,
    ));
    lemma_hints_upto(m, db.functions@[f], list, list.len() as int);
}

/// Nothing else has a hint.
pub proof fn law_hints_are_for_arguments(db: Builtins, m: Model, x: int)
    requires
        0 <= x < inlays_upto(db, m, m.nodes.len() as int).len(),
    ensures
        exists|i: int, f: int, args: int, c: int, p: int|
            0 <= i < m.nodes.len() && #[trigger] passes(db, m, i, f, args, c, p) && inlays_upto(
                db,
                m,
                m.nodes.len() as int,
            )[x] == (InlayFacts {
                position: place(m.text, m.nodes[c].start_byte),
                label: db.functions@[f].parameters@[p].name@ + ":"@,
            }),
{
    let n = m.nodes.len() as int;
    let h = inlays_upto(db, m, n)[x];
    lemma_inlay_source(db, m, n, x);
    let i = choose|i: int| 0 <= i < n && #[trigger] hints_at(db, m, i).contains(h);
    let p = choose|p: int| 0 <= p < hints_at(db, m, i).len() && hints_at(db, m, i)[p] == h;
    let f = db.function_at(call_name(m, i)->0)->0;
    let args = field_child(m.nodes, i, "arguments"@)->0;
    let list = positional_args(m, named_children_of(m.nodes, args));
    assert(list =~= named_children_of(m.nodes, args).filter(
        |x: int| m.nodes[x].kind != "keyword_argument"@,
    ));
    lemma_hints_upto(m, db.functions@[f], list, list.len() as int);
    assert(passes(db, m, i, f, args, list[p], p));
}

/// Inlay hints: parameter-name labels on the positional arguments of builtin
/// calls (e.g. `ta.sma(source: close, length: 14)`).
pub fn inlay_hints(db: &Builtins, doc: &Document) -> (r: Vec<InlayHint>)
    requires
        doc.wf(),
    ensures
        views(r@) == inlays_upto(*db, doc@, doc@.nodes.len() as int),
{
    let mut out: Vec<InlayHint> = Vec::new();
    let mut i: usize = 0;
    proof {
        lemma_views_empty::<InlayHint>();
    }
    while i < doc.tree().len()
        invariant
            doc.wf(),
            i <= doc@.nodes.len(),
            views(out@) == inlays_upto(*db, doc@, i as int),
        decreases doc@.nodes.len() - i,
    {
        inlay_for_call(db, doc, i, &mut out);
        i = i + 1;
    }
    out
}

fn inlay_for_call(db: &Builtins, doc: &Document, i: usize, out: &mut Vec<InlayHint>)
    requires
        doc.wf(),
        i < doc@.nodes.len(),
    ensures
        views(final(out)@) == views(old(out)@) + hints_at(*db, doc@, i as int),
{
    let ghost start = views(out@);
    if let Some(name) = called_name(doc, i) {
        if let Some(f) = function(db, name.as_str()) {
            if let Some(args) = child_by_field(doc.tree(), i, "arguments") {
                hint_arguments(doc, f, args, out);
                return;
            }
        }
    }
    proof {
        assert(views(out@) =~= start + hints_at(*db, doc@, i as int));
    }
}

proof fn lemma_hints_prefix(
    m: Model,
    f: BuiltinFunction,
    a: Seq<int>,
    b: Seq<int>,
    k: int,
)
    requires
        0 <= k <= a.len(),
        k <= b.len(),
        a.take(k) == b.take(k),
    ensures
        hints_upto(m, f, a, k) == hints_upto(m, f, b, k),
    decreases k,
{
    if k > 0 {
        assert(a.take(k - 1) =~= a.take(k).take(k - 1));
        assert(b.take(k - 1) =~= b.take(k).take(k - 1));
        lemma_hints_prefix(m, f, a, b, k - 1);
        assert(a[k - 1] == a.take(k)[k - 1]);
        assert(b[k - 1] == b.take(k)[k - 1]);
    }
}

fn hint_arguments(doc: &Document, f: &BuiltinFunction, args: usize, out: &mut Vec<InlayHint>)
    requires
        doc.wf(),
        args < doc@.nodes.len(),
    ensures
        ({
            let list = positional_args(doc@, named_children_of(doc@.nodes, args as int));
            views(final(out)@) == views(old(out)@) + hints_upto(
                doc@,
                *f,
                list,
                list.len() as int,
            )
        }),
{
    let ghost m = doc@;
    let ghost start = views(out@);
    let list = named_children(doc.tree(), args);
    let ghost all = indices(list@);
    let ghost p = |c: int| m.nodes[c].kind != "keyword_argument"@;
    let mut positional: usize = 0;
    let mut k: usize = 0;
    proof {
        reveal(Seq::filter);
        assert(all.take(0) =~= Seq::<int>::empty());
        assert(start =~= start + hints_upto(m, *f, all.take(0).filter(p), 0));
    }
    while k < list.len()
        invariant
            doc.wf(),
            m == doc@,
            all == indices(list@),
            p == (|c: int| m.nodes[c].kind != "keyword_argument"@),
            k <= list@.len(),
            forall|x: int| 0 <= x < list@.len() ==> args < #[trigger] list@[x] < m.nodes.len(),
            positional == all.take(k as int).filter(p).len(),
            positional <= k,
            views(out@) == start + hints_upto(
                m,
                *f,
                all.take(k as int).filter(p),
                positional as int,
            ),
        decreases list@.len() - k,
    {
        let c: usize = list[k];
        let node = &doc.tree()[c];
        let ghost before = all.take(k as int).filter(p);
        let ghost now = all.take(k + 1).filter(p);
        proof {
            assert(all[k as int] == c);
            assert(node@ == m.nodes[c as int]);
            lemma_filter_take(all, p, k as int);
        }
        if !node.is("keyword_argument") {
            proof {
                assert(now == before.push(c as int));
                assert(before.take(positional as int) =~= now.take(positional as int));
                lemma_hints_prefix(m, *f, before, now, positional as int);
            }
            if positional < f.parameters.len() {
                let one = InlayHint {
                    position: byte_position(doc, node.start_byte),
                    label: concat(f.parameters[positional].name.as_str(), ":"),
                };
                proof {
                    lemma_views_push(out@, one);
                    assert(views(out@).push(one@) =~= start + hints_upto(
                        m,
                        *f,
                        now,
                        positional + 1,
                    ));
                }
                out.push(one);
            }
            positional = positional + 1;
        }
        k = k + 1;
    }
    proof {
        assert(all.take(all.len() as int) =~= all);
    }
}

}
