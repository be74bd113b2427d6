//! A Model Context Protocol server for Pine Script v6: newline-delimited JSON-RPC
//! 2.0, with four tools that wrap the checks and the builtins database.
//!
//! - `pine_validate`      lint a snippet
//! - `pine_lookup`        builtin function/variable/constant docs
//! - `pine_list_functions` list builtin functions (optionally by namespace)
//! - `pine_format`        format a snippet

use serde_json::Value;
use tree_sitter::Language;
use vstd::prelude::*;
use vstd::string::*;

use crate::builtins::{constant, function, variable, BuiltinFunction, Builtins};
use crate::check::{analyze, diagnostics_of, DiagFacts, Diagnostic, Severity};
use crate::document::{parsed_model, Document};
use crate::features::format::{format_text, formatted};
use crate::features::hover::function_head;
use crate::sorting::{insert_after, is_order, law_sort_orders, lemma_insert_at, stable_sort};
use crate::strings::{
    concat, concat3, decimal, join, lemma_text_le_total, lemma_text_le_trans, lemma_views_empty,
    lemma_views_push, opt_view, str_eq, str_join, str_le, str_trim_start, text_le, to_decimal,
    trim_start, views,
};
use crate::syntax::Model;
use crate::text::position_of;

verus! {

// ---------------------------------------------------------------------------
// JSON
// ---------------------------------------------------------------------------

/// `serde_json::Value`, a JSON value.
#[verifier::external_type_specification]
#[verifier::external_body]
pub struct ExValue(serde_json::Value);

/// The JSON value that a text is, as `serde_json::from_str` reads it.
pub uninterp spec fn parsed_json(text: Seq<char>) -> Option<Value>;

/// The text of a JSON value, as `serde_json::to_string` writes it.
pub uninterp spec fn rendered(value: Value) -> Seq<char>;

/// The member of that name of a JSON object.
pub uninterp spec fn member_of(value: Value, key: Seq<char>) -> Option<Value>;

/// The text of a JSON string.
pub uninterp spec fn text_of(value: Value) -> Option<Seq<char>>;

/// The JSON string with that text.
pub uninterp spec fn text_value(text: Seq<char>) -> Value;

/// A JSON boolean.
pub uninterp spec fn bool_value(b: bool) -> Value;

/// The JSON array of those values.
pub uninterp spec fn array_value(items: Seq<Value>) -> Value;

/// The JSON object with those members.
pub uninterp spec fn object_value(members: Seq<(Seq<char>, Value)>) -> Value;

/// The value of the last of the first `k` members that has that name.
pub open spec fn last_member(
    members: Seq<(Seq<char>, Value)>,
    key: Seq<char>,
    k: int,
) -> Option<Value>
    decreases k,
{
    if k <= 0 {
        None
    } else if members[k - 1].0 == key {
        Some(members[k - 1].1)
    } else {
        last_member(members, key, k - 1)
    }
}

/// Members, in mathematical values.
pub open spec fn member_views(members: Seq<(String, Value)>) -> Seq<(Seq<char>, Value)> {
    members.map_values(|m: (String, Value)| (m.0@, m.1))
}

/// `serde_json::from_str`, for any value: `None` where the text is no JSON.
#[verifier::external_body]
fn parse_json(text: &str) -> (r: Option<Value>)
    ensures
        r == parsed_json(text@),
{
    serde_json::from_str::<Value>(text).ok()
}

/// `serde_json::to_string`, which cannot fail on a `Value`.
#[verifier::external_body]
fn render(value: &Value) -> (r: String)
    ensures
        r@ == rendered(*value),
{
    serde_json::to_string(value).unwrap()
}

/// `serde_json::Value::get` with a name: `None` for a missing member and for
/// anything but an object. The member is copied.
#[verifier::external_body]
fn member(value: &Value, key: &str) -> (r: Option<Value>)
    ensures
        r == member_of(*value, key@),
{
    value.get(key).cloned()
}

/// `serde_json::Value::as_str`: `None` for anything but a string. The text is
/// copied.
#[verifier::external_body]
fn string_in(value: &Value) -> (r: Option<String>)
    ensures
        opt_view(r) == text_of(*value),
{
    value.as_str().map(str::to_string)
}

/// `serde_json::Value::String`, which `as_str` reads back.
#[verifier::external_body]
fn json_text(text: &str) -> (r: Value)
    ensures
        r == text_value(text@),
        text_of(r) == Some(text@),
{
    Value::String(text.to_string())
}

/// `serde_json::Value::Bool`.
#[verifier::external_body]
fn json_bool(b: bool) -> (r: Value)
    ensures
        r == bool_value(b),
{
    Value::Bool(b)
}

/// `serde_json::Value::Array`.
#[verifier::external_body]
fn json_array(items: Vec<Value>) -> (r: Value)
    ensures
        r == array_value(items@),
{
    Value::Array(items)
}

/// `serde_json::Value::Object` of a `serde_json::Map` that is collected from its
/// members: `get` finds each of them by name, the last one where several have it.
#[verifier::external_body]
fn json_object(members: Vec<(String, Value)>) -> (r: Value)
    ensures
        r == object_value(member_views(members@)),
        forall|key: Seq<char>|
            #[trigger] member_of(r, key) == last_member(
                member_views(members@),
                key,
                members@.len() as int,
            ),
{
    Value::Object(serde_json::Map::from_iter(members))
}

fn object1(a: &str, x: Value) -> (r: Value)
    ensures
        r == object_value(seq![(a@, x)]),
        forall|key: Seq<char>|
            #[trigger] member_of(r, key) == if key == a@ {
                Some(x)
            } else {
                None
            },
{
    let mut members: Vec<(String, Value)> = Vec::new();
    members.push((a.to_owned(), x));
    proof {
        assert(member_views(members@) =~= seq![(a@, x)]);
        reveal_with_fuel(last_member, 2);
    }
    json_object(members)
}

fn object2(a: &str, x: Value, b: &str, y: Value) -> (r: Value)
    ensures
        r == object_value(seq![(a@, x), (b@, y)]),
        forall|key: Seq<char>|
            #[trigger] member_of(r, key) == if key == b@ {
                Some(y)
            } else if key == a@ {
                Some(x)
            } else {
                None
            },
{
    let mut members: Vec<(String, Value)> = Vec::new();
    members.push((a.to_owned(), x));
    members.push((b.to_owned(), y));
    proof {
        assert(member_views(members@) =~= seq![(a@, x), (b@, y)]);
        reveal_with_fuel(last_member, 3);
    }
    json_object(members)
}

fn object3(a: &str, x: Value, b: &str, y: Value, c: &str, z: Value) -> (r: Value)
    ensures
        r == object_value(seq![(a@, x), (b@, y), (c@, z)]),
        a@ != b@ && b@ != c@ && a@ != c@ ==> member_of(r, a@) == Some(x) && member_of(r, b@)
            == Some(y) && member_of(r, c@) == Some(z),
{
    let mut members: Vec<(String, Value)> = Vec::new();
    members.push((a.to_owned(), x));
    members.push((b.to_owned(), y));
    members.push((c.to_owned(), z));
    let ghost all = seq![(a@, x), (b@, y), (c@, z)];
    proof {
        assert(member_views(members@) =~= all);
        reveal_with_fuel(last_member, 4);
    }
    json_object(members)
}

fn array1(x: Value) -> (r: Value)
    ensures
        r == array_value(seq![x]),
{
    let mut items: Vec<Value> = Vec::new();
    items.push(x);
    proof {
        assert(items@ =~= seq![x]);
    }
    json_array(items)
}

// ---------------------------------------------------------------------------
// The tools
// ---------------------------------------------------------------------------

pub open spec fn severity_label(s: Severity) -> Seq<char> {
    match s {
        Severity::Error => "Error"@,
        Severity::Warning => "Warning"@,
        Severity::Info => "Info"@,
    }
}

/// `line:column: Severity: message [code]`, lines and columns counted from 1.
pub open spec fn validation_line(m: Model, d: DiagFacts) -> Seq<char> {
    let (line, column) = position_of(m.text, d.start_byte);
    decimal((line + 1) as nat) + ":"@ + decimal((column + 1) as nat) + ": "@ + severity_label(
        d.severity,
    ) + ": "@ + d.message + " ["@ + d.code + "]"@
}

/// What validating a parsed document says.
pub open spec fn validation_text(m: Option<Model>) -> Seq<char> {
    match m {
        Some(m) => if diagnostics_of(m).len() == 0 {
            "No issues found."@
        } else {
            join(diagnostics_of(m).map_values(|d: DiagFacts| validation_line(m, d)), "\n"@)
        },
        None => "Failed to parse."@,
    }
}

fn diagnostic_line(doc: &Document, d: &Diagnostic) -> (r: String)
    requires
        doc.wf(),
    ensures
        r@ == validation_line(doc@, d@),
{
    let (line, column) = doc.position_at(d.start_byte);
    let severity = match d.severity {
        Severity::Error => "Error",
        Severity::Warning => "Warning",
        Severity::Info => "Info",
    };
    let mut out = concat(to_decimal(line as u64 + 1).as_str(), ":");
    out.append(to_decimal(column as u64 + 1).as_str());
    out.append(": ");
    out.append(severity);
    out.append(": ");
    out.append(d.message.as_str());
    out.append(" [");
    out.append(d.code);
    out.append("]");
    out
}

/// What validating a document says, given the parsed document, if there is one.
pub fn validate_document(doc: Option<Document>) -> (r: String)
    requires
        doc matches Some(d) ==> d.wf(),
    ensures
        r@ == validation_text(opt_view(doc)),
{
    let doc = match doc {
        Some(doc) => doc,
        None => {
            return "Failed to parse.".to_owned();
        },
    };
    let ghost m = doc@;
    let diags = analyze(&doc);
    proof {
        assert(views(diags@).len() == diags@.len());
    }
    if diags.len() == 0 {
        return "No issues found.".to_owned();
    }
    let ghost all = diagnostics_of(m).map_values(|d: DiagFacts| validation_line(m, d));
    let mut lines: Vec<String> = Vec::new();
    let mut k: usize = 0;
    proof {
        lemma_views_empty::<String>();
        assert(all.take(0) =~= Seq::empty());
    }
    while k < diags.len()
        invariant
            doc.wf(),
            m == doc@,
            k <= diags@.len(),
            views(diags@) == diagnostics_of(m),
            all == diagnostics_of(m).map_values(|d: DiagFacts| validation_line(m, d)),
            all.len() == diags@.len(),
            views(lines@) == all.take(k as int),
        decreases diags@.len() - k,
    {
        let line = diagnostic_line(&doc, &diags[k]);
        proof {
            lemma_views_push(lines@, line);
            assert(diagnostics_of(m)[k as int] == diags@[k as int]@);
            assert(all[k as int] == line@);
            assert(all.take(k as int).push(line@) =~= all.take(k + 1));
        }
        lines.push(line);
        k = k + 1;
    }
    proof {
        assert(all.take(all.len() as int) =~= all);
    }
    str_join(&lines, "\n")
}

/// Lint a snippet.
pub fn validate(language: &Language, code: &str) -> (r: String)
    ensures
        r@ == validation_text(parsed_model(*language, code@)),
{
    validate_document(Document::parse(language, code))
}

/// The documentation of a builtin, as plain text.
pub open spec fn lookup_text(db: Builtins, name: Seq<char>) -> Seq<char> {
    match (db.function_at(name), db.variable_at(name), db.constant_at(name)) {
        (Some(i), _, _) => function_head(db.functions@[i]) + "\n\n"@
            + db.functions@[i].description@ + "\n\nreturns: "@ + db.functions@[i].returns@,
        (None, Some(i), _) => db.variables@[i].name@ + ": "@ + db.variables@[i].ty@ + "\n\n"@
            + db.variables@[i].description@,
        (None, None, Some(i)) => db.constants@[i].name@ + ": "@ + db.constants@[i].ty@,
        _ => "`"@ + name + "` not found"@,
    }
}

/// Look up a builtin by name.
pub fn lookup(db: &Builtins, name: &str) -> (r: String)
    ensures
        r@ == lookup_text(*db, name@),
{
    if let Some(f) = function(db, name) {
        let head = if f.syntax.as_str().is_empty() {
            f.name.as_str()
        } else {
            f.syntax.as_str()
        };
        let mut out = concat3(head, "\n\n", f.description.as_str());
        out.append("\n\nreturns: ");
        out.append(f.returns.as_str());
        return out;
    }
    if let Some(v) = variable(db, name) {
        let mut out = concat3(v.name.as_str(), ": ", v.ty.as_str());
        out.append("\n\n");
        out.append(v.description.as_str());
        return out;
    }
    if let Some(c) = constant(db, name) {
        return concat3(c.name.as_str(), ": ", c.ty.as_str());
    }
    concat3("`", name, "` not found")
}

/// The function belongs to the namespace that was asked for, if one was.
pub open spec fn in_namespace(f: BuiltinFunction, namespace: Option<Seq<char>>) -> bool {
    match namespace {
        Some(ns) => opt_view(f.namespace) == Some(ns),
        None => true,
    }
}

/// The names of those of the first `k` functions.
pub open spec fn names_upto(
    db: Builtins,
    namespace: Option<Seq<char>>,
    k: int,
) -> Seq<Seq<char>>
    decreases k,
{
    if k <= 0 {
        Seq::empty()
    } else if in_namespace(db.functions@[k - 1], namespace) {
        names_upto(db, namespace, k - 1).push(db.functions@[k - 1].name@)
    } else {
        names_upto(db, namespace, k - 1)
    }
}

pub open spec fn name_order() -> spec_fn(Seq<char>, Seq<char>) -> bool {
    |a: Seq<char>, b: Seq<char>| text_le(a, b)
}

/// The list of builtin functions, in order, one per line.
pub open spec fn functions_text(db: Builtins, namespace: Option<Seq<char>>) -> Seq<char> {
    let names = names_upto(db, namespace, db.functions@.len() as int);
    if names.len() == 0 {
        "(none)"@
    } else {
        join(stable_sort(names, name_order()), "\n"@)
    }
}

fn insert_name(out: &mut Vec<String>, name: String)
    ensures
        views(final(out)@) == insert_after(views(old(out)@), name@, name_order()),
{
    let ghost s = views(out@);
    let mut j: usize = out.len();
    while j > 0 && !str_le(out[j - 1].as_str(), name.as_str())
        invariant
            j <= out@.len(),
            s == views(out@),
            forall|i: int| j <= i < s.len() ==> !#[trigger] name_order()(s[i], name@),
        decreases j,
    {
        proof {
            assert(s[j - 1] == out@[j - 1]@);
        }
        j = j - 1;
    }
    proof {
        if j > 0 {
            assert(s[j - 1] == out@[j - 1]@);
        }
        lemma_insert_at(s, name@, name_order(), j as int);
        assert(views(out@.insert(j as int, name)) =~= s.insert(j as int, name@));
    }
    out.insert(j, name);
}

fn belongs(f: &BuiltinFunction, namespace: Option<&str>) -> (r: bool)
    ensures
        r == in_namespace(
            *f,
            match namespace {
                Some(ns) => Some(ns@),
                None => None,
            },
        ),
{
    match namespace {
        Some(ns) => match &f.namespace {
            Some(own) => str_eq(own.as_str(), ns),
            None => false,
        },
        None => true,
    }
}

/// List builtin function names, optionally filtered by namespace (e.g. `ta`).
pub fn list_functions(db: &Builtins, namespace: Option<&str>) -> (r: String)
    ensures
        r@ == functions_text(
            *db,
            match namespace {
                Some(ns) => Some(ns@),
                None => None,
            },
        ),
{
    let ghost wanted = match namespace {
        Some(ns) => Some(ns@),
        None => None,
    };
    let mut names: Vec<String> = Vec::new();
    let mut k: usize = 0;
    proof {
        lemma_views_empty::<String>();
    }
    while k < db.functions.len()
        invariant
            k <= db.functions@.len(),
            wanted == match namespace {
                Some(ns) => Some(ns@),
                None => None,
            },
            names@.len() == names_upto(*db, wanted, k as int).len(),
            views(names@) == stable_sort(names_upto(*db, wanted, k as int), name_order()),
        decreases db.functions@.len() - k,
    {
        let f = &db.functions[k];
        if belongs(f, namespace) {
            let ghost before = names_upto(*db, wanted, k as int);
            let ghost held = views(names@);
            insert_name(&mut names, f.name.clone());
            proof {
                assert(before.push(f.name@).drop_last() =~= before);
                lemma_insert_len(held, f.name@);
                assert(views(names@).len() == names@.len());
            }
        }
        k = k + 1;
    }
    if names.len() == 0 {
        "(none)".to_owned()
    } else {
        str_join(&names, "\n")
    }
}

proof fn lemma_insert_len(s: Seq<Seq<char>>, x: Seq<char>)
    ensures
        insert_after(s, x, name_order()).len() == s.len() + 1,
    decreases s.len(),
{
    if s.len() > 0 && !name_order()(s.last(), x) {
        lemma_insert_len(s.drop_last(), x);
    }
}

/// Format a snippet: the same formatting as a document's.
pub fn format_code(code: &str) -> (r: String)
    ensures
        r@ == formatted(code@),
{
    format_text(code)
}

// ---------------------------------------------------------------------------
// Requests
// ---------------------------------------------------------------------------

/// One required string among the properties of a tool's input.
pub open spec fn schema_value(property: Seq<char>, required: bool) -> Value {
    let properties = object_value(
        seq![(property, object_value(seq![("type"@, text_value("string"@))]))],
    );
    if required {
        object_value(
            seq![
                ("type"@, text_value("object"@)),
                ("properties"@, properties),
                ("required"@, array_value(seq![text_value(property)])),
            ],
        )
    } else {
        object_value(seq![("type"@, text_value("object"@)), ("properties"@, properties)])
    }
}

pub open spec fn tool_value(
    name: Seq<char>,
    description: Seq<char>,
    property: Seq<char>,
    required: bool,
) -> Value {
    object_value(
        seq![
            ("name"@, text_value(name)),
            ("description"@, text_value(description)),
            ("inputSchema"@, schema_value(property, required)),
        ],
    )
}

/// The tools that the server offers.
pub open spec fn tools_value() -> Value {
    array_value(
        seq![
            tool_value(
                "pine_validate"@,
                "Lint Pine Script v6 source; returns diagnostics."@,
                "code"@,
                true,
            ),
            tool_value(
                "pine_lookup"@,
                "Look up a Pine builtin function/variable/constant by name."@,
                "name"@,
                true,
            ),
            tool_value(
                "pine_list_functions"@,
                "List builtin function names, optionally filtered by namespace (e.g. 'ta')."@,
                "namespace"@,
                false,
            ),
            tool_value("pine_format"@, "Format Pine Script v6 source."@, "code"@, true),
        ],
    )
}

fn schema(property: &str, required: bool) -> (r: Value)
    ensures
        r == schema_value(property@, required),
{
    let properties = object1(property, object1("type", json_text("string")));
    if required {
        object3(
            "type",
            json_text("object"),
            "properties",
            properties,
            "required",
            array1(json_text(property)),
        )
    } else {
        object2("type", json_text("object"), "properties", properties)
    }
}

fn tool(name: &str, description: &str, property: &str, required: bool) -> (r: Value)
    ensures
        r == tool_value(name@, description@, property@, required),
{
    object3(
        "name",
        json_text(name),
        "description",
        json_text(description),
        "inputSchema",
        schema(property, required),
    )
}

/// The tools that the server offers.
pub fn tool_specs() -> (r: Value)
    ensures
        r == tools_value(),
{
    let mut tools: Vec<Value> = Vec::new();
    tools.push(
        tool(
            "pine_validate",
            "Lint Pine Script v6 source; returns diagnostics.",
            "code",
            true,
        ),
    );
    tools.push(
        tool(
            "pine_lookup",
            "Look up a Pine builtin function/variable/constant by name.",
            "name",
            true,
        ),
    );
    tools.push(
        tool(
            "pine_list_functions",
            "List builtin function names, optionally filtered by namespace (e.g. 'ta').",
            "namespace",
            false,
        ),
    );
    tools.push(tool("pine_format", "Format Pine Script v6 source.", "code", true));
    proof {
        assert(array_value(tools@) == tools_value()) by {
            assert(tools@ =~= seq![
                tool_value(
                    "pine_validate"@,
                    "Lint Pine Script v6 source; returns diagnostics."@,
                    "code"@,
                    true,
                ),
                tool_value(
                    "pine_lookup"@,
                    "Look up a Pine builtin function/variable/constant by name."@,
                    "name"@,
                    true,
                ),
                tool_value(
                    "pine_list_functions"@,
                    "List builtin function names, optionally filtered by namespace (e.g. 'ta')."@,
                    "namespace"@,
                    false,
                ),
                tool_value("pine_format"@, "Format Pine Script v6 source."@, "code"@, true),
            ]);
        }
    }
    json_array(tools)
}

/// The text of the member `key`, if the value has such a member.
pub open spec fn member_text(value: Option<Value>, key: Seq<char>) -> Option<Seq<char>> {
    match value {
        Some(value) => match member_of(value, key) {
            Some(found) => text_of(found),
            None => None,
        },
        None => None,
    }
}

pub open spec fn or_empty(text: Option<Seq<char>>) -> Seq<char> {
    match text {
        Some(text) => text,
        None => Seq::empty(),
    }
}

/// What a tool answers; `None` for an unknown tool.
pub open spec fn tool_text(
    db: Builtins,
    language: Language,
    name: Seq<char>,
    args: Option<Value>,
) -> Option<Seq<char>> {
    if name == "pine_validate"@ {
        Some(validation_text(parsed_model(language, or_empty(member_text(args, "code"@)))))
    } else if name == "pine_lookup"@ {
        Some(lookup_text(db, or_empty(member_text(args, "name"@))))
    } else if name == "pine_list_functions"@ {
        Some(functions_text(db, member_text(args, "namespace"@)))
    } else if name == "pine_format"@ {
        Some(formatted(or_empty(member_text(args, "code"@))))
    } else {
        None
    }
}

/// The tools that answer.
pub open spec fn is_known_tool(name: Seq<char>) -> bool {
    ||| name == "pine_validate"@
    ||| name == "pine_lookup"@
    ||| name == "pine_list_functions"@
    ||| name == "pine_format"@
}

/// A text as a content block.
pub open spec fn block_value(text: Seq<char>) -> Value {
    object_value(seq![("type"@, text_value("text"@)), ("text"@, text_value(text))])
}

/// The name of the tool that a call asks for.
pub open spec fn called_tool(params: Option<Value>) -> Seq<char> {
    or_empty(member_text(params, "name"@))
}

/// The text that a call is answered with: the tool's, or one that names the unknown
/// tool.
pub open spec fn call_text(db: Builtins, language: Language, params: Option<Value>) -> Seq<char> {
    let args = match params {
        Some(params) => member_of(params, "arguments"@),
        None => None,
    };
    match tool_text(db, language, called_tool(params), args) {
        Some(text) => text,
        None => "unknown tool: "@ + called_tool(params),
    }
}

/// The answer to a tool call: its text, marked as an error where the tool is
/// unknown.
pub open spec fn call_value(db: Builtins, language: Language, params: Option<Value>) -> Value {
    let content = ("content"@, array_value(seq![block_value(call_text(db, language, params))]));
    if is_known_tool(called_tool(params)) {
        object_value(seq![content])
    } else {
        object_value(seq![content, ("isError"@, bool_value(true))])
    }
}

/// The answer to the request for the server's properties.
pub open spec fn greeting_value(version: Seq<char>) -> Value {
    object_value(
        seq![
            ("protocolVersion"@, text_value("2024-11-05"@)),
            (
                "serverInfo"@,
                object_value(
                    seq![("name"@, text_value("pine-script"@)), ("version"@, text_value(version))],
                ),
            ),
            (
                "capabilities"@,
                object_value(seq![("tools"@, object_value(Seq::empty()))]),
            ),
        ],
    )
}

/// The result of a request; `None` for methods that are not answered.
pub open spec fn result_value(
    db: Builtins,
    language: Language,
    version: Seq<char>,
    request: Value,
) -> Option<Value> {
    let method = or_empty(member_text(Some(request), "method"@));
    if method == "initialize"@ {
        Some(greeting_value(version))
    } else if method == "tools/list"@ {
        Some(object_value(seq![("tools"@, tools_value())]))
    } else if method == "tools/call"@ {
        Some(call_value(db, language, member_of(request, "params"@)))
    } else if method == "ping"@ {
        Some(object_value(Seq::empty()))
    } else {
        None
    }
}

/// The message that carries a result.
pub open spec fn reply_value(id: Value, result: Value) -> Value {
    object_value(seq![("jsonrpc"@, text_value("2.0"@)), ("id"@, id), ("result"@, result)])
}

/// The answer to one request: requests without an id and methods that are not
/// known get none.
pub open spec fn answer_value(
    db: Builtins,
    language: Language,
    version: Seq<char>,
    request: Value,
) -> Option<Value> {
    match (member_of(request, "id"@), result_value(db, language, version, request)) {
        (Some(id), Some(result)) => Some(reply_value(id, result)),
        _ => None,
    }
}

/// The answer to one line; lines that are blank or no JSON get none.
pub open spec fn response_of(
    db: Builtins,
    language: Language,
    version: Seq<char>,
    line: Seq<char>,
) -> Option<Seq<char>> {
    if trim_start(line).len() == 0 {
        None
    } else {
        match parsed_json(line) {
            Some(request) => match answer_value(db, language, version, request) {
                Some(reply) => Some(rendered(reply)),
                None => None,
            },
            None => None,
        }
    }
}

fn text_member(value: &Option<Value>, key: &str) -> (r: Option<String>)
    ensures
        opt_view(r) == member_text(*value, key@),
{
    match value {
        Some(value) => match member(value, key) {
            Some(found) => string_in(&found),
            None => None,
        },
        None => None,
    }
}

fn text_member_or_empty(value: &Option<Value>, key: &str) -> (r: String)
    ensures
        r@ == or_empty(member_text(*value, key@)),
{
    match text_member(value, key) {
        Some(text) => text,
        None => String::new(),
    }
}

fn text_block(text: &str) -> (r: Value)
    ensures
        r == block_value(text@),
{
    object2("type", json_text("text"), "text", json_text(text))
}

/// What a tool answers; `None` for an unknown tool.
pub fn call_tool(db: &Builtins, language: &Language, name: &str, args: &Option<Value>) -> (r: Option<
    String,
>)
    ensures
        opt_view(r) == tool_text(*db, *language, name@, *args),
{
    if str_eq(name, "pine_validate") {
        Some(validate(language, text_member_or_empty(args, "code").as_str()))
    } else if str_eq(name, "pine_lookup") {
        Some(lookup(db, text_member_or_empty(args, "name").as_str()))
    } else if str_eq(name, "pine_list_functions") {
        match text_member(args, "namespace") {
            Some(ns) => Some(list_functions(db, Some(ns.as_str()))),
            None => Some(list_functions(db, None)),
        }
    } else if str_eq(name, "pine_format") {
        Some(format_code(text_member_or_empty(args, "code").as_str()))
    } else {
        None
    }
}

/// Answer a tool call, with one block of text. The answer is marked as an error
/// exactly where the tool is unknown.
pub fn handle_call(db: &Builtins, language: &Language, params: &Option<Value>) -> (r: Value)
    ensures
        r == call_value(*db, *language, *params),
        member_of(r, "isError"@) == if is_known_tool(called_tool(*params)) {
            None
        } else {
            Some(bool_value(true))
        },
        member_of(r, "content"@) == Some(
            array_value(seq![block_value(call_text(*db, *language, *params))]),
        ),
{
    proof {
        reveal_strlit("content");
        reveal_strlit("isError");
        assert("content"@[0] == 'c' && "isError"@[0] == 'i');
    }
    let name = text_member_or_empty(params, "name");
    let args = match params {
        Some(params) => member(params, "arguments"),
        None => None,
    };
    match call_tool(db, language, name.as_str(), &args) {
        Some(text) => object1("content", array1(text_block(text.as_str()))),
        None => object2(
            "content",
            array1(text_block(concat("unknown tool: ", name.as_str()).as_str())),
            "isError",
            json_bool(true),
        ),
    }
}

fn empty_object() -> (r: Value)
    ensures
        r == object_value(Seq::empty()),
{
    let members: Vec<(String, Value)> = Vec::new();
    proof {
        assert(member_views(members@) =~= Seq::empty());
    }
    json_object(members)
}

/// The answer to one request, if it gets one.
pub fn answer(db: &Builtins, language: &Language, version: &str, request: &Value) -> (r: Option<
    Value,
>)
    ensures
        r == answer_value(*db, *language, version@, *request),
        r matches Some(reply) ==> {
            &&& member_of(reply, "jsonrpc"@) == Some(text_value("2.0"@))
            &&& member_of(reply, "id"@) == member_of(*request, "id"@)
            &&& member_of(reply, "result"@) == result_value(*db, *language, version@, *request)
        },
{
    let method = match member(request, "method") {
        Some(found) => match string_in(&found) {
            Some(text) => text,
            None => String::new(),
        },
        None => String::new(),
    };
    let method = method.as_str();
    let id = match member(request, "id") {
        Some(id) => id,
        None => {
            return None;
        },
    };
    let result = if str_eq(method, "initialize") {
        object3(
            "protocolVersion",
            json_text("2024-11-05"),
            "serverInfo",
            object2("name", json_text("pine-script"), "version", json_text(version)),
            "capabilities",
            object1("tools", empty_object()),
        )
    } else if str_eq(method, "tools/list") {
        object1("tools", tool_specs())
    } else if str_eq(method, "tools/call") {
        handle_call(db, language, &member(request, "params"))
    } else if str_eq(method, "ping") {
        empty_object()
    } else {
        return None;
    };
    proof {
        reveal_strlit("jsonrpc");
        reveal_strlit("id");
        reveal_strlit("result");
        assert("jsonrpc"@.len() == 7 && "id"@.len() == 2 && "result"@.len() == 6);
    }
    Some(object3("jsonrpc", json_text("2.0"), "id", id, "result", result))
}

/// The answer to one line of input, if it gets one.
pub fn respond(db: &Builtins, language: &Language, version: &str, line: &str) -> (r: Option<String>)
    ensures
        opt_view(r) == response_of(*db, *language, version@, line@),
{
    if str_trim_start(line).as_str().is_empty() {
        return None;
    }
    match parse_json(line) {
        Some(request) => match answer(db, language, version, &request) {
            Some(reply) => Some(render(&reply)),
            None => None,
        },
        None => None,
    }
}

/// Validating a document gives one line for each diagnostic, in order, with its line and
/// column counted from 1, its severity, message and code; without diagnostics it says so,
/// and so it does where there is no tree.
pub proof fn law_validation_has_a_line_for_each(m: Model, lines: Seq<Seq<char>>)
    requires
        lines.len() == diagnostics_of(m).len(),
        forall|i: int|
            0 <= i < lines.len() ==> #[trigger] lines[i] == {
                let d = diagnostics_of(m)[i];
                let (line, column) = position_of(m.text, d.start_byte);
                let label = match d.severity {
                    Severity::Error => "Error"@,
                    Severity::Warning => "Warning"@,
                    Severity::Info => "Info"@,
                };
                decimal((line + 1) as nat) + ":"@ + decimal((column + 1) as nat) + ": "@ + label
                    + ": "@ + d.message + " ["@ + d.code + "]"@
            },
    ensures
        lines.len() == 0 ==> validation_text(Some(m)) == "No issues found."@,
        lines.len() > 0 ==> validation_text(Some(m)) == join(lines, "\n"@),
        validation_text(None) == "Failed to parse."@,
{
    assert(diagnostics_of(m).map_values(|d: DiagFacts| validation_line(m, d)) =~= lines);
}

/// Looking up a builtin shows a function before a variable before a constant: its syntax
/// or name, description and what it returns; its name, type and description; its name and
/// type. A name that is none of them is said not to be found.
pub proof fn law_lookup_shows_the_builtin(db: Builtins, name: Seq<char>)
    ensures
        match db.function_at(name) {
            Some(i) => {
                let f = db.functions@[i];
                lookup_text(db, name) == (if f.syntax@.len() == 0 {
                    f.name@
                } else {
                    f.syntax@
                }) + "\n\n"@ + f.description@ + "\n\nreturns: "@ + f.returns@
            },
            None => match db.variable_at(name) {
                Some(i) => lookup_text(db, name) == db.variables@[i].name@ + ": "@
                    + db.variables@[i].ty@ + "\n\n"@ + db.variables@[i].description@,
                None => match db.constant_at(name) {
                    Some(i) => lookup_text(db, name) == db.constants@[i].name@ + ": "@
                        + db.constants@[i].ty@,
                    None => lookup_text(db, name) == "`"@ + name + "` not found"@,
                },
            },
        },
{
}

proof fn lemma_names_exactly(db: Builtins, namespace: Option<Seq<char>>, k: int)
    requires
        0 <= k <= db.functions@.len(),
    ensures
        names_upto(db, namespace, k) == db.functions@.take(k).filter(
            |f: BuiltinFunction|
                namespace matches Some(ns) ==> (f.namespace matches Some(own) && own@ == ns),
        ).map_values(|f: BuiltinFunction| f.name@),
    decreases k,
{
    let all = db.functions@;
    let p = |f: BuiltinFunction|
        namespace matches Some(ns) ==> (f.namespace matches Some(own) && own@ == ns);
    let name = |f: BuiltinFunction| f.name@;
    reveal(Seq::filter);
    if k > 0 {
        lemma_names_exactly(db, namespace, k - 1);
        assert(all.take(k).drop_last() =~= all.take(k - 1));
        assert(all.take(k).last() == all[k - 1]);
        let before = all.take(k - 1).filter(p);
        assert(before.push(all[k - 1]).map_values(name) =~= before.map_values(name).push(
            name(all[k - 1]),
        ));
    } else {
        assert(names_upto(db, namespace, k) =~= all.take(k).filter(p).map_values(name));
    }
}

/// The list of functions holds the names of all functions of the namespace that was asked
/// for, or of all functions, one per line, in the order of the names; where there is none
/// it says so.
pub proof fn law_functions_are_listed(db: Builtins, namespace: Option<Seq<char>>)
    ensures
        ({
            let names = db.functions@.filter(
                |f: BuiltinFunction|
                    namespace matches Some(ns) ==> (f.namespace matches Some(own) && own@ == ns),
            ).map_values(|f: BuiltinFunction| f.name@);
            if names.len() == 0 {
                functions_text(db, namespace) == "(none)"@
            } else {
                exists|sorted: Seq<Seq<char>>|
                    #[trigger] is_listing(sorted, names) && functions_text(db, namespace) == join(
                        sorted,
                        "\n"@,
                    )
            }
        }),
{
    let all = db.functions@;
    let names = names_upto(db, namespace, all.len() as int);
    lemma_names_exactly(db, namespace, all.len() as int);
    assert(all.take(all.len() as int) =~= all);
    assert(is_order(name_order())) by {
        assert forall|a: Seq<char>, b: Seq<char>| #[trigger] name_order()(a, b) || name_order()(
            b,
            a,
        ) by {
            lemma_text_le_total(a, b);
        }
        assert forall|a: Seq<char>, b: Seq<char>, c: Seq<char>| #[trigger]
            name_order()(a, b) && #[trigger] name_order()(b, c) implies name_order()(a, c) by {
            lemma_text_le_trans(a, b, c);
        }
    }
    law_sort_orders(names, name_order());
    let sorted = stable_sort(names, name_order());
    assert forall|i: int, j: int| 0 <= i < j < sorted.len() implies #[trigger] text_le(
        sorted[i],
        sorted[j],
    ) by {
        assert(name_order()(sorted[i], sorted[j]));
    }
    assert(is_listing(sorted, names));
}

/// `sorted` holds the names, each as often as they do, in the order of the names.
pub open spec fn is_listing(sorted: Seq<Seq<char>>, names: Seq<Seq<char>>) -> bool {
    &&& sorted.to_multiset() == names.to_multiset()
    &&& forall|i: int, j: int|
        0 <= i < j < sorted.len() ==> #[trigger] text_le(sorted[i], sorted[j])
}

/// Each of the four tools answers what it is for, on the argument that it takes; any
/// other name is answered by saying that there is no such tool, as an error.
pub proof fn law_tools_answer(
    db: Builtins,
    language: Language,
    params: Value,
    args: Value,
    name: Seq<char>,
    given: Value,
    text: Seq<char>,
)
    requires
        member_of(params, "name"@) matches Some(value) && text_of(value) == Some(name),
        member_of(params, "arguments"@) == Some(args),
        text_of(given) == Some(text),
    ensures
        name == "pine_validate"@ && member_of(args, "code"@) == Some(given) ==> call_text(
            db,
            language,
            Some(params),
        ) == validation_text(parsed_model(language, text)),
        name == "pine_lookup"@ && member_of(args, "name"@) == Some(given) ==> call_text(
            db,
            language,
            Some(params),
        ) == lookup_text(db, text),
        name == "pine_list_functions"@ && member_of(args, "namespace"@) == Some(given)
            ==> call_text(db, language, Some(params)) == functions_text(db, Some(text)),
        name == "pine_list_functions"@ && member_of(args, "namespace"@) is None ==> call_text(
            db,
            language,
            Some(params),
        ) == functions_text(db, None),
        name == "pine_format"@ && member_of(args, "code"@) == Some(given) ==> call_text(
            db,
            language,
            Some(params),
        ) == formatted(text),
        ({
            let content = (
                "content"@,
                array_value(
                    seq![
                        object_value(
                            seq![
                                ("type"@, text_value("text"@)),
                                ("text"@, text_value(call_text(db, language, Some(params)))),
                            ],
                        ),
                    ],
                ),
            );
            if name == "pine_validate"@ || name == "pine_lookup"@ || name == "pine_list_functions"@
                || name == "pine_format"@ {
                call_value(db, language, Some(params)) == object_value(seq![content])
            } else {
                call_text(db, language, Some(params)) == "unknown tool: "@ + name && call_value(
                    db,
                    language,
                    Some(params),
                ) == object_value(seq![content, ("isError"@, bool_value(true))])
            }
        }),
{
    reveal_strlit("pine_validate");
    reveal_strlit("pine_lookup");
    reveal_strlit("pine_list_functions");
    reveal_strlit("pine_format");
    assert("pine_validate"@.len() == 13 && "pine_lookup"@.len() == 11
        && "pine_list_functions"@.len() == 19 && "pine_format"@.len() == 11);
    assert("pine_lookup"@[5] == 'l' && "pine_format"@[5] == 'f');
}

/// The tools that are listed are those that answer, with the text that each takes.
pub proof fn law_tools_are_listed(name: Seq<char>)
    ensures
        exists|tools: Seq<Value>|
            {
                &&& tools_value() == #[trigger] array_value(tools)
                &&& tools.len() == 4
                &&& tools[0] == tool_value(
                    "pine_validate"@,
                    "Lint Pine Script v6 source; returns diagnostics."@,
                    "code"@,
                    true,
                )
                &&& tools[1] == tool_value(
                    "pine_lookup"@,
                    "Look up a Pine builtin function/variable/constant by name."@,
                    "name"@,
                    true,
                )
                &&& tools[2] == tool_value(
                    "pine_list_functions"@,
                    "List builtin function names, optionally filtered by namespace (e.g. 'ta')."@,
                    "namespace"@,
                    false,
                )
                &&& tools[3] == tool_value(
                    "pine_format"@,
                    "Format Pine Script v6 source."@,
                    "code"@,
                    true,
                )
            },
        is_known_tool(name) <==> name == "pine_validate"@ || name == "pine_lookup"@ || name
            == "pine_list_functions"@ || name == "pine_format"@,
{
    let tools = seq![
        tool_value(
            "pine_validate"@,
            "Lint Pine Script v6 source; returns diagnostics."@,
            "code"@,
            true,
        ),
        tool_value(
            "pine_lookup"@,
            "Look up a Pine builtin function/variable/constant by name."@,
            "name"@,
            true,
        ),
        tool_value(
            "pine_list_functions"@,
            "List builtin function names, optionally filtered by namespace (e.g. 'ta')."@,
            "namespace"@,
            false,
        ),
        tool_value("pine_format"@, "Format Pine Script v6 source."@, "code"@, true),
    ];
    assert(tools_value() == array_value(tools));
}

/// A request with an id is answered under that id: the greeting, the list of the tools,
/// what a tool answers, or an empty result to a ping.
pub proof fn law_requests_are_answered(
    db: Builtins,
    language: Language,
    version: Seq<char>,
    line: Seq<char>,
    request: Value,
    id: Value,
    method: Seq<char>,
)
    requires
        trim_start(line).len() > 0,
        parsed_json(line) == Some(request),
        member_of(request, "id"@) == Some(id),
        member_of(request, "method"@) matches Some(value) && text_of(value) == Some(method),
    ensures
        ({
            let response = response_of(db, language, version, line);
            &&& method == "initialize"@ ==> response == Some(
                rendered(
                    object_value(
                        seq![
                            ("jsonrpc"@, text_value("2.0"@)),
                            ("id"@, id),
                            ("result"@, greeting_value(version)),
                        ],
                    ),
                ),
            )
            &&& method == "tools/list"@ ==> response == Some(
                rendered(
                    object_value(
                        seq![
                            ("jsonrpc"@, text_value("2.0"@)),
                            ("id"@, id),
                            ("result"@, object_value(seq![("tools"@, tools_value())])),
                        ],
                    ),
                ),
            )
            &&& method == "tools/call"@ ==> response == Some(
                rendered(
                    object_value(
                        seq![
                            ("jsonrpc"@, text_value("2.0"@)),
                            ("id"@, id),
                            (
                                "result"@,
                                call_value(db, language, member_of(request, "params"@)),
                            ),
                        ],
                    ),
                ),
            )
            &&& method == "ping"@ ==> response == Some(
                rendered(
                    object_value(
                        seq![
                            ("jsonrpc"@, text_value("2.0"@)),
                            ("id"@, id),
                            ("result"@, object_value(Seq::empty())),
                        ],
                    ),
                ),
            )
            &&& method != "initialize"@ && method != "tools/list"@ && method != "tools/call"@
                && method != "ping"@ ==> response is None
        }),
{
    reveal_strlit("initialize");
    reveal_strlit("tools/list");
    reveal_strlit("tools/call");
    reveal_strlit("ping");
    assert("initialize"@.len() == 10 && "tools/list"@.len() == 10 && "tools/call"@.len() == 10
        && "ping"@.len() == 4);
    assert("initialize"@[0] == 'i' && "tools/list"@[6] == 'l' && "tools/call"@[6] == 'c');
    assert("tools/list"@[0] == 't' && "tools/call"@[0] == 't');
}

/// A line without a request, a notification, and a method that is not known are
/// not answered.
pub proof fn law_unanswered(db: Builtins, language: Language, version: Seq<char>, line: Seq<char>)
    requires
        match parsed_json(line) {
            Some(request) => member_of(request, "id"@) is None || result_value(
                db,
                language,
                version,
                request,
            ) is None,
            None => true,
        },
    ensures
        response_of(db, language, version, line) is None,
{
}

}
