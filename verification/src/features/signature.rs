//! Signature help for the builtin call around the cursor.

use vstd::prelude::*;
use vstd::string::*;

use crate::builtins::{function, BuiltinFunction, Builtins, Param};
use crate::document::Document;
use crate::features::hover::function_head;
use crate::lsp::{
    ParameterFacts, ParameterInformation, Position, SignatureFacts, SignatureHelp,
    SignatureHelpFacts, SignatureInformation,
};
use crate::strings::{lemma_views_empty, lemma_views_push, opt_view, views};
use crate::symbols::{call_name, called_name};
use crate::syntax::{
    child_by_field, children, children_of, enclosing, enclosing_node, field_child, indices,
    lemma_filter_take, Model,
};
use crate::text::offset_of;

verus! {

/// Of the first `k` nodes of a list, how many are commas that start before
/// `byte`.
pub open spec fn commas_upto(m: Model, list: Seq<int>, byte: int, k: int) -> int
    decreases k,
{
    if k <= 0 {
        0
    } else {
        commas_upto(m, list, byte, k - 1) + if m.nodes[list[k - 1]].kind == ","@
            && m.nodes[list[k - 1]].start_byte < byte {
            1int
        } else {
            0int
        }
    }
}

/// The number of the argument that an offset is in, counting the commas before
/// it.
pub open spec fn active_argument(m: Model, call: int, byte: int) -> int {
    match field_child(m.nodes, call, "arguments"@) {
        Some(args) => {
            let list = children_of(m.nodes, args);
            commas_upto(m, list, byte, list.len() as int)
        },
        None => 0,
    }
}

/// The call around an offset: the name of the function, and the number of the
/// argument.
pub open spec fn call_around(m: Model, byte: int) -> Option<(Seq<char>, int)> {
    match enclosing(m.nodes, m.named_at(byte), "call"@) {
        Some(call) => match call_name(m, call) {
            Some(name) => Some((name, active_argument(m, call, byte))),
            None => None,
        },
        None => None,
    }
}

/// A text, or nothing where it is empty.
pub open spec fn nonempty(text: Seq<char>) -> Option<Seq<char>> {
    if text.len() == 0 {
        None
    } else {
        Some(text)
    }
}

pub open spec fn parameter_of(p: Param) -> ParameterFacts {
    ParameterFacts { label: p.name@, documentation: nonempty(p.description@) }
}

/// The parameter to point at: that of the argument, or the last one.
pub open spec fn active_of(f: BuiltinFunction, active: int) -> Option<u32> {
    let count = f.parameters@.len();
    if count == 0 {
        None
    } else if active < count - 1 {
        Some(active as u32)
    } else {
        Some((count - 1) as u32)
    }
}

/// The help for a call of `f` at argument number `active`.
pub open spec fn help_for(f: BuiltinFunction, active: int) -> SignatureHelpFacts {
    SignatureHelpFacts {
        signatures: seq![
            SignatureFacts {
                label: function_head(f),
                documentation: nonempty(f.description@),
                parameters: f.parameters@.map_values(|p: Param| parameter_of(p)),
                active_parameter: active_of(f, active),
            },
        ],
        active_signature: Some(0),
        active_parameter: active_of(f, active),
    }
}

/// The help at a position; builtin functions only.
pub open spec fn help_of(db: Builtins, m: Model, pos: Position) -> Option<SignatureHelpFacts> {
    match call_around(m, offset_of(m.text, pos.line as int, pos.character as int)) {
        Some((name, active)) => match db.function_at(name) {
            Some(i) => Some(help_for(db.functions@[i], active)),
            None => None,
        },
        None => None,
    }
}

/// The parameter that is pointed at exists.
pub proof fn law_active_parameter_exists(f: BuiltinFunction, active: int)
    requires
        0 <= active,
        f.parameters@.len() <= u32::MAX,
    ensures
        f.parameters@.len() == 0 ==> help_for(f, active).active_parameter is None,
        f.parameters@.len() > 0 ==> (help_for(f, active).active_parameter matches Some(p) && p
            < help_for(f, active).signatures[0].parameters.len()),
{
}

/// The parameter that is pointed at is the one with the number of the argument,
/// while there is one; from there on it is the last. A function without parameters
/// has none to point at.
pub proof fn law_active_parameter_is_the_argument(f: BuiltinFunction, argument: int)
    requires
        0 <= argument,
        f.parameters@.len() <= u32::MAX,
    ensures
        ({
            let n = f.parameters@.len() as int;
            let help = help_for(f, argument);
            &&& argument < n ==> (help.active_parameter matches Some(p) && p == argument)
            &&& 0 < n <= argument ==> (help.active_parameter matches Some(p) && p == n - 1)
            &&& n == 0 ==> help.active_parameter is None
            &&& help.signatures[0].active_parameter == help.active_parameter
        }),
{
}

proof fn lemma_commas(m: Model, list: Seq<int>, byte: int, k: int)
    requires
        0 <= k <= list.len(),
    ensures
        commas_upto(m, list, byte, k) == list.take(k).filter(
            |c: int| m.nodes[c].kind == ","@ && m.nodes[c].start_byte < byte,
        ).len(),
    decreases k,
{
    let p = |c: int| m.nodes[c].kind == ","@ && m.nodes[c].start_byte < byte;
    if k > 0 {
        lemma_commas(m, list, byte, k - 1);
        lemma_filter_take(list, p, k - 1);
    } else {
        reveal(Seq::filter);
        assert(list.take(0).filter(p) =~= Seq::<int>::empty());
    }
}

/// The help is for the innermost call around the position, by the name of what it
/// calls, and the argument is the number of its commas that start before the position.
pub proof fn law_commas_number_the_arguments(m: Model, byte: int, call: int, args: int)
    requires
        enclosing(m.nodes, m.named_at(byte), "call"@) == Some(call),
        field_child(m.nodes, call, "arguments"@) == Some(args),
    ensures
        call_around(m, byte) == match call_name(m, call) {
            Some(name) => Some(
                (
                    name,
                    children_of(m.nodes, args).filter(
                        |c: int| m.nodes[c].kind == ","@ && m.nodes[c].start_byte < byte,
                    ).len() as int,
                ),
            ),
            None => None,
        },
{
    let list = children_of(m.nodes, args);
    lemma_commas(m, list, byte, list.len() as int);
    assert(list.take(list.len() as int) =~= list);
}

/// A call without an argument list is at its first argument; where no call of a named
/// function is around the position, there is none.
pub proof fn law_calls_without_arguments(m: Model, byte: int)
    ensures
        match enclosing(m.nodes, m.named_at(byte), "call"@) {
            Some(call) => match call_name(m, call) {
                Some(name) => call_around(m, byte) matches Some((called, argument)) && called
                    == name && (field_child(m.nodes, call, "arguments"@) is None ==> argument == 0),
                None => call_around(m, byte) is None,
            },
            None => call_around(m, byte) is None,
        },
{
}

/// The help of a function shows its syntax, or its name where it has none, its
/// description and all its parameters in order; empty texts are left out.
pub proof fn law_help_shows_the_function(f: BuiltinFunction, argument: int, i: int)
    ensures
        ({
            let help = help_for(f, argument);
            let one = help.signatures[0];
            &&& help.signatures.len() == 1
            &&& help.active_signature == Some(0u32)
            &&& one.label == if f.syntax@.len() == 0 {
                f.name@
            } else {
                f.syntax@
            }
            &&& one.documentation == if f.description@.len() == 0 {
                None
            } else {
                Some(f.description@)
            }
            &&& one.parameters.len() == f.parameters@.len()
            &&& 0 <= i < f.parameters@.len() ==> one.parameters[i].label == f.parameters@[i].name@
                && one.parameters[i].documentation == if f.parameters@[i].description@.len() == 0 {
                None
            } else {
                Some(f.parameters@[i].description@)
            }
        }),
{
}

/// There is help where a call around the position names a builtin function, and only
/// there.
pub proof fn law_help_is_for_builtins(db: Builtins, m: Model, pos: Position)
    ensures
        match call_around(m, offset_of(m.text, pos.line as int, pos.character as int)) {
            Some((name, argument)) => match db.function_at(name) {
                Some(i) => help_of(db, m, pos) == Some(help_for(db.functions@[i], argument)),
                None => help_of(db, m, pos) is None,
            },
            None => help_of(db, m, pos) is None,
        },
{
}

fn opt_text(text: &str) -> (r: Option<String>)
    ensures
        opt_view(r) == nonempty(text@),
{
    if text.is_empty() {
        None
    } else {
        Some(text.to_owned())
    }
}

/// Signature help for the builtin call enclosing the cursor.
pub fn signature_help(db: &Builtins, doc: &Document, pos: Position) -> (r: Option<SignatureHelp>)
    requires
        doc.wf(),
    ensures
        opt_view(r) == help_of(*db, doc@, pos),
{
    let byte: usize = doc.offset_at(pos.line, pos.character);
    let (name, active) = match enclosing_call(doc, byte) {
        Some(found) => found,
        None => {
            return None;
        },
    };
    match function(db, name.as_str()) {
        Some(f) => Some(help_of_function(f, active)),
        None => None,
    }
}

fn help_of_function(f: &BuiltinFunction, active: usize) -> (r: SignatureHelp)
    ensures
        r@ == help_for(*f, active as int),
{
    let label = if f.syntax.as_str().is_empty() {
        f.name.clone()
    } else {
        f.syntax.clone()
    };
    let ghost all = f.parameters@.map_values(|p: Param| parameter_of(p));
    let mut parameters: Vec<ParameterInformation> = Vec::new();
    let mut k: usize = 0;
    proof {
        lemma_views_empty::<ParameterInformation>();
        assert(all.take(0) =~= Seq::empty());
    }
    while k < f.parameters.len()
        invariant
            k <= f.parameters@.len(),
            all == f.parameters@.map_values(|p: Param| parameter_of(p)),
            views(parameters@) == all.take(k as int),
        decreases f.parameters@.len() - k,
    {
        let p = &f.parameters[k];
        let one = ParameterInformation {
            label: p.name.clone(),
            documentation: opt_text(p.description.as_str()),
        };
        proof {
            lemma_views_push(parameters@, one);
            assert(all[k as int] == one@);
            assert(all.take(k as int).push(one@) =~= all.take(k + 1));
        }
        parameters.push(one);
        k = k + 1;
    }
    proof {
        assert(all.take(all.len() as int) =~= all);
    }
    let count: usize = f.parameters.len();
    let active_parameter: Option<u32> = if count == 0 {
        None
    } else if active < count - 1 {
        Some(active as u32)
    } else {
        Some((count - 1) as u32)
    };
    let one = SignatureInformation {
        label,
        documentation: opt_text(f.description.as_str()),
        parameters,
        active_parameter,
    };
    let mut signatures: Vec<SignatureInformation> = Vec::new();
    proof {
        lemma_views_empty::<SignatureInformation>();
        lemma_views_push(signatures@, one);
    }
    signatures.push(one);
    let r = SignatureHelp { signatures, active_signature: Some(0), active_parameter };
    proof {
        assert(r@.signatures =~= help_for(*f, active as int).signatures);
    }
    r
}

/// The call around `byte`: the name of the function, and the number of the
/// argument.
fn enclosing_call(doc: &Document, byte: usize) -> (r: Option<(String, usize)>)
    requires
        doc.wf(),
    ensures
        match r {
            Some((name, active)) => call_around(doc@, byte as int) == Some((name@, active as int)),
            None => call_around(doc@, byte as int) is None,
        },
{
    let leaf: usize = doc.named_node(byte);
    let call = match enclosing_node(doc.tree(), leaf, "call") {
        Some(call) => call,
        None => {
            return None;
        },
    };
    let name = match called_name(doc, call) {
        Some(name) => name,
        None => {
            return None;
        },
    };
    let active: usize = match child_by_field(doc.tree(), call, "arguments") {
        Some(args) => count_commas_before(doc, args, byte),
        None => 0,
    };
    Some((name, active))
}

fn count_commas_before(doc: &Document, args: usize, byte: usize) -> (r: usize)
    requires
        doc.wf(),
        args < doc@.nodes.len(),
    ensures
        ({
            let list = children_of(doc@.nodes, args as int);
            r == commas_upto(doc@, list, byte as int, list.len() as int)
        }),
{
    let list = children(doc.tree(), args);
    let ghost all = children_of(doc@.nodes, args as int);
    let mut count: usize = 0;
    let mut k: usize = 0;
    while k < list.len()
        invariant
            doc.wf(),
            all == indices(list@),
            k <= list@.len(),
            count <= k,
            forall|x: int| 0 <= x < list@.len() ==> args < #[trigger] list@[x] < doc@.nodes.len(),
            count == commas_upto(doc@, all, byte as int, k as int),
        decreases list@.len() - k,
    {
        let node = &doc.tree()[list[k]];
        proof {
            assert(all[k as int] == list@[k as int]);
            assert(node@ == doc@.nodes[all[k as int]]);
        }
        if node.is(",") && node.start_byte < byte {
            count = count + 1;
        }
        k = k + 1;
    }
    count
}

}
