//! Editor features over documents whose trees are written down here.

use pine_rs::backend::{
    capabilities, import_cache_key, import_sources, resolve_imports_cached, workspace_symbols,
    ImportCache, KeyEntry, Modified,
};
use pine_rs::builtins::{
    BuiltinConstant, BuiltinFunction, BuiltinVariable, Builtins, Keywords, Param,
};
use pine_rs::check::analyze;
use pine_rs::cli::{exit_status, report, report_lines, sev_str};
use pine_rs::document::Document;
use pine_rs::features::completion::{exported_detail, exported_item};
use pine_rs::features::format::format_text;
use pine_rs::features::navigation::{library_range, GotoTarget};
use pine_rs::features::tokens::{
    M_DECLARATION, M_DEFAULT_LIBRARY, T_COMMENT, T_FUNCTION, T_NAMESPACE, T_NUMBER, T_PARAMETER,
    T_PROPERTY, T_STRING, T_VARIABLE,
};
use pine_rs::features::words::{trailing_run, word_at};
use pine_rs::features::{
    all_diagnostics, code_actions, completions_at, document_symbols, folding_ranges,
    format_document, goto_definition, hover_at, inlay_hints, prepare_rename, references, rename,
    semantic_token_legend, semantic_tokens, signature_help, syntax_diagnostics,
};
use pine_rs::imports::{
    ExportKind, ExportedParam, ExportedSymbol, ImportResolution, LibrarySource,
};
use pine_rs::lsp::{
    byte_range, CompletionItem, CompletionItemKind, DiagnosticSeverity, EditorDiagnostic,
    OutlineKind, Position, Range,
};
use pine_rs::mcp::{list_functions, lookup, respond, validate_document};
use pine_rs::syntax::Node;
use serde_json::Value;
use std::path::PathBuf;
use tree_sitter::Language;

// A syntax tree as it is written down in these tests: leaves carry their text,
// and the spans follow from the source.
struct Cst {
    kind: String,
    field: Option<String>,
    named: bool,
    error: bool,
    missing: bool,
    text: Option<String>,
    kids: Vec<Cst>,
}

fn leaf(kind: &str, text: &str) -> Cst {
    Cst {
        kind: kind.to_string(),
        field: None,
        named: true,
        error: false,
        missing: false,
        text: Some(text.to_string()),
        kids: Vec::new(),
    }
}

fn tok(text: &str) -> Cst {
    Cst { named: false, ..leaf(text, text) }
}

fn node(kind: &str, kids: Vec<Cst>) -> Cst {
    Cst { text: None, kids, ..leaf(kind, "") }
}

fn under(field: &str, tree: Cst) -> Cst {
    Cst { field: Some(field.to_string()), ..tree }
}

fn broken_up(kids: Vec<Cst>) -> Cst {
    Cst { error: true, ..node("ERROR", kids) }
}

fn missing(kind: &str) -> Cst {
    Cst { missing: true, named: false, ..leaf(kind, "") }
}

fn lay(tree: &Cst, src: &str, at: &mut usize, depth: usize, out: &mut Vec<Node>) -> (usize, usize, bool) {
    let slot = out.len();
    out.push(Node {
        kind: tree.kind.clone(),
        field: tree.field.clone(),
        named: tree.named,
        error: tree.error,
        missing: tree.missing,
        has_error: false,
        start_byte: 0,
        end_byte: 0,
        start_row: 0,
        end_row: 0,
        depth,
    });
    let (mut start, mut end) = (*at, *at);
    if let Some(text) = &tree.text {
        start = *at + src[*at..].find(text.as_str()).expect("leaf in source");
        end = start + text.len();
        *at = end;
    }
    let mut has_error = tree.error || tree.missing;
    for (i, kid) in tree.kids.iter().enumerate() {
        let (s, e, bad) = lay(kid, src, at, depth + 1, out);
        if i == 0 {
            start = s;
        }
        end = e;
        has_error = has_error || bad;
    }
    if depth == 0 {
        start = 0;
        end = src.len();
    }
    out[slot].start_byte = start;
    out[slot].end_byte = end;
    out[slot].start_row = src[..start].matches('\n').count();
    out[slot].end_row = src[..end].matches('\n').count();
    out[slot].has_error = has_error;
    (start, end, has_error)
}

fn document(src: &str, kids: Vec<Cst>) -> Document {
    let mut nodes: Vec<Node> = Vec::new();
    let mut at: usize = 0;
    lay(&node("source_file", kids), src, &mut at, 0, &mut nodes);
    Document::from_nodes(src.to_string(), nodes).expect("a tree over the text")
}

fn id(name: &str) -> Cst {
    leaf("identifier", name)
}

fn num(text: &str) -> Cst {
    leaf("integer", text)
}

fn string(text: &str) -> Cst {
    leaf("string", text)
}

fn comment(text: &str) -> Cst {
    leaf("comment", text)
}

fn version() -> Cst {
    comment("//@version=6")
}

/// `a.b.c` as nested member accesses.
fn dotted(name: &str) -> Cst {
    match name.rsplit_once('.') {
        Some((object, member)) => node(
            "attribute",
            vec![
                under("object", dotted(object)),
                tok("."),
                under("attribute", id(member)),
            ],
        ),
        None => id(name),
    }
}

fn call(name: &str, args: Vec<Cst>) -> Cst {
    let mut list = vec![tok("(")];
    for (i, arg) in args.into_iter().enumerate() {
        if i > 0 {
            list.push(tok(","));
        }
        list.push(arg);
    }
    list.push(tok(")"));
    node(
        "call",
        vec![
            under("function", dotted(name)),
            under("arguments", node("argument_list", list)),
        ],
    )
}

fn keyword(key: &str, value: Cst) -> Cst {
    node(
        "keyword_argument",
        vec![under("key", id(key)), tok("="), under("value", value)],
    )
}

fn simple(tree: Cst) -> Cst {
    node("simple_statement", vec![tree])
}

/// A call as a statement of its own.
fn run(name: &str, args: Vec<Cst>) -> Cst {
    simple(call(name, args))
}

fn define(name: &str, value: Cst) -> Cst {
    simple(node(
        "variable_definition",
        vec![under("variable", id(name)), tok("="), under("initial_value", value)],
    ))
}

fn binary(left: Cst, operator: &str, right: Cst) -> Cst {
    node("math_operation", vec![left, tok(operator), right])
}

fn block(kids: Vec<Cst>) -> Cst {
    node("block", kids)
}

/// One parameter: its qualifier, type, name and default.
fn param(qualifier: &str, ty: &str, name: &str, default: &str) -> Vec<Cst> {
    let mut out: Vec<Cst> = Vec::new();
    if !qualifier.is_empty() {
        out.push(under("qualifier", leaf("type_qualifier", qualifier)));
    }
    if !ty.is_empty() {
        out.push(under("type", leaf("base_type", ty)));
    }
    out.push(under("argument", id(name)));
    if !default.is_empty() {
        out.push(tok("="));
        out.push(under("default_value", leaf("float", default)));
    }
    out
}

/// A function declaration: its leading tokens, the field and text of its name,
/// its parameters, its body.
fn declare(lead: &[&str], field: &str, name: &str, params: Vec<Vec<Cst>>, body: Cst) -> Cst {
    let mut kids: Vec<Cst> = lead.iter().map(|t| tok(t)).collect();
    kids.push(under(field, id(name)));
    kids.push(tok("("));
    for (i, param) in params.into_iter().enumerate() {
        if i > 0 {
            kids.push(tok(","));
        }
        kids.extend(param);
    }
    kids.push(tok(")"));
    kids.push(tok("=>"));
    kids.push(under("body", block(vec![body])));
    node("function_declaration_statement", kids)
}

fn plain(names: &[&str]) -> Vec<Vec<Cst>> {
    names.iter().map(|n| param("", "", n, "")).collect()
}

fn import(path: &str, alias: Option<&str>) -> Cst {
    let mut kids = vec![tok("import"), under("path", leaf("import_path", path))];
    if let Some(alias) = alias {
        kids.push(tok("as"));
        kids.push(under("alias", id(alias)));
    }
    node("import", kids)
}

// ---- the builtins -----------------------------------------------------------

fn parameter(name: &str) -> Param {
    Param {
        name: name.to_string(),
        ty: "series float".to_string(),
        description: format!("the {name}"),
        required: true,
        default: None,
    }
}

fn func(name: &str, params: &[&str]) -> BuiltinFunction {
    BuiltinFunction {
        name: name.to_string(),
        namespace: name.rsplit_once('.').map(|(ns, _)| ns.to_string()),
        syntax: String::new(),
        description: String::new(),
        parameters: params.iter().map(|p| parameter(p)).collect(),
        returns: "series float".to_string(),
        flags: None,
        deprecated: None,
        since: None,
        example: None,
    }
}

fn var(name: &str) -> BuiltinVariable {
    BuiltinVariable {
        name: name.to_string(),
        namespace: None,
        ty: "series float".to_string(),
        qualifier: "series".to_string(),
        description: "A price.".to_string(),
        since: None,
    }
}

/// A database of the full size, with the entries that matter spelled out.
fn database() -> Builtins {
    let mut sma = func("ta.sma", &["source", "length"]);
    sma.syntax = "ta.sma(source, length) → series float".to_string();
    sma.description = "Simple moving average.".to_string();
    let mut functions = vec![
        func("ta.rsi", &["source", "length"]),
        sma,
        func("plot", &["series", "title"]),
        func("indicator", &["title"]),
        func("chart.point.new", &["time"]),
        func("chart.bg", &[]),
    ];
    for i in functions.len()..457 {
        functions.push(func(&format!("pad.f{i}"), &[]));
    }
    let mut variables: Vec<BuiltinVariable> =
        ["close", "open", "high", "low"].iter().map(|v| var(v)).collect();
    for i in variables.len()..90 {
        variables.push(var(&format!("pad.v{i}")));
    }
    let red = BuiltinConstant {
        name: "color.red".to_string(),
        namespace: "color".to_string(),
        short_name: "red".to_string(),
        ty: "const color".to_string(),
        description: Some("Red.".to_string()),
    };
    let mut keywords = Keywords::default();
    keywords.all = vec!["if".to_string(), "for".to_string()];
    Builtins { functions, variables, constants: vec![red], keywords }
}

fn at(line: u32, character: u32) -> Position {
    Position { line, character }
}

/// Position of the first byte of `needle` in `src`.
fn pos_of(doc: &Document, src: &str, needle: &str) -> Position {
    let byte = src.find(needle).expect("needle in src");
    let (line, character) = doc.position_at(byte);
    at(line, character)
}

fn has_label(items: &[CompletionItem], label: &str) -> bool {
    items.iter().any(|i| i.label == label)
}

/// A statement that the parser could not read.
fn unread(names: &[&str]) -> Cst {
    broken_up(names.iter().map(|n| id(n)).collect())
}

fn plot_close(src: &str) -> Document {
    document(src, vec![version(), run("plot", vec![id("close")])])
}

// ---- diagnostics ------------------------------------------------------------

#[test]
fn syntax_errors_reported() {
    let d = document(
        "//@version=6\nx = (1 + \n",
        vec![version(), broken_up(vec![id("x"), tok("="), tok("("), num("1"), tok("+")])],
    );
    let diags = syntax_diagnostics(&d);
    assert!(!diags.is_empty());
    assert_eq!(diags[0].severity, Some(DiagnosticSeverity::Error));
    assert_eq!(diags[0].message, "Syntax error");
    assert_eq!(diags[0].source.as_deref(), Some("pine-lsp"));
    assert_eq!(diags[0].range, Range { start: at(1, 0), end: at(1, 8) });
}

#[test]
fn clean_source_has_no_diags() {
    let d = document(
        "//@version=6\nindicator(\"x\")\nplot(close)\n",
        vec![version(), run("indicator", vec![string("\"x\"")]), run("plot", vec![id("close")])],
    );
    assert!(syntax_diagnostics(&d).is_empty());
}

#[test]
fn missing_tokens_are_named() {
    let d = document(
        "//@version=6\nplot(close\n",
        vec![
            version(),
            simple(node(
                "call",
                vec![
                    under("function", id("plot")),
                    under("arguments", node("argument_list", vec![tok("("), id("close"), missing(")")])),
                ],
            )),
        ],
    );
    let diags = syntax_diagnostics(&d);
    assert_eq!(diags.len(), 1);
    assert_eq!(diags[0].message, "Syntax error: missing `)`");
    assert_eq!(diags[0].range, Range { start: at(1, 10), end: at(1, 10) });
}

#[test]
fn only_outermost_errors_are_reported() {
    let d = document(
        "//@version=6\na b c\n",
        vec![version(), broken_up(vec![id("a"), broken_up(vec![id("b")]), id("c")])],
    );
    assert_eq!(syntax_diagnostics(&d).len(), 1);
}

#[test]
fn source_less_import_emits_no_diagnostic() {
    // `/// @source` is a local-library convenience; published imports
    // legitimately omit it. A missing directive must NOT be flagged.
    let d = document(
        "//@version=6\nindicator(\"x\")\nimport TradingView/ta/7\nplot(close)\n",
        vec![
            version(),
            run("indicator", vec![string("\"x\"")]),
            import("TradingView/ta/7", None),
            run("plot", vec![id("close")]),
        ],
    );
    let diags = all_diagnostics(&d);
    assert!(
        !diags.iter().any(|d| d.code == Some("import-no-source".to_string())),
        "source-less import must not produce a diagnostic"
    );
}

#[test]
fn all_diagnostics_keeps_syntax_errors_with_imports() {
    let d = document(
        "//@version=6\nimport User/MyLib/1 as myLib\nx = (1 + \n",
        vec![
            version(),
            import("User/MyLib/1", Some("myLib")),
            broken_up(vec![id("x"), tok("="), tok("("), num("1"), tok("+")]),
        ],
    );
    let diags = all_diagnostics(&d);
    assert!(
        diags.iter().any(|d| d.severity == Some(DiagnosticSeverity::Error)),
        "syntax ERROR must remain"
    );
}

#[test]
fn semantic_diagnostics_follow_the_syntax_errors() {
    let d = document(
        "strategy(\"S\")\nx = (1 + \n",
        vec![
            run("strategy", vec![string("\"S\"")]),
            broken_up(vec![id("x"), tok("="), tok("("), num("1"), tok("+")]),
        ],
    );
    let all: Vec<(Option<DiagnosticSeverity>, Option<String>)> =
        all_diagnostics(&d).into_iter().map(|d| (d.severity, d.code)).collect();
    assert_eq!(
        all,
        vec![
            (Some(DiagnosticSeverity::Error), None),
            (Some(DiagnosticSeverity::Warning), Some("missing-version".to_string())),
            (Some(DiagnosticSeverity::Information), Some("strategy-no-orders".to_string())),
        ]
    );
}

// ---- hover ------------------------------------------------------------------

#[test]
fn hover_on_builtin_variable() {
    let d = plot_close("//@version=6\nplot(close)\n");
    // "close" begins at line 1, char 5
    let h = hover_at(&database(), &d, at(1, 5));
    assert!(h.is_some(), "expected hover on `close`");
    assert_eq!(h.unwrap().value, "```pine\nclose: series float\n```\n\nA price.");
}

#[test]
fn hover_on_import_alias_shows_library_path() {
    let src = "//@version=6\n/// @source ./libs/a.pine\nimport User/MyLib/1 as myLib\n";
    let d = document(
        src,
        vec![
            version(),
            comment("/// @source ./libs/a.pine"),
            import("User/MyLib/1", Some("myLib")),
        ],
    );
    let h = hover_at(&database(), &d, pos_of(&d, src, "myLib")).expect("hover on alias");
    let md = h.value;
    assert!(md.contains("User/MyLib/1"), "markdown: {md}");
    assert!(md.contains("./libs/a.pine"), "markdown: {md}");
    assert_eq!(md, "```pine\nimport User/MyLib/1 as myLib\n```\n\nSource: ./libs/a.pine");
}

#[test]
fn hover_on_aliasless_import_uses_lib_name() {
    let src = "//@version=6\nimport TV/Strategy/2\n";
    let d = document(src, vec![version(), import("TV/Strategy/2", None)]);
    // Hover on the lib name `Strategy` (the effective namespace).
    let h = hover_at(&database(), &d, pos_of(&d, src, "Strategy")).expect("hover on lib name");
    let md = h.value;
    assert!(md.contains("TV/Strategy/2"), "markdown: {md}");
    assert!(!md.contains(" as "), "aliasless import must not fabricate `as`: {md}");
}

#[test]
fn hover_on_import_without_source_notes_missing() {
    let src = "//@version=6\nimport User/MyLib/1 as myLib\n";
    let d = document(src, vec![version(), import("User/MyLib/1", Some("myLib"))]);
    let h = hover_at(&database(), &d, pos_of(&d, src, "myLib")).expect("hover on alias");
    let md = h.value;
    assert!(md.contains("@source"), "should mention missing @source: {md}");
}

#[test]
fn hover_on_builtin_still_wins() {
    let src = "//@version=6\nplot(close)\n";
    let d = plot_close(src);
    // `close` is a builtin variable; alias fallback must not change this.
    let h = hover_at(&database(), &d, pos_of(&d, src, "close")).expect("builtin hover");
    let md = h.value;
    assert!(md.contains("close"), "builtin doc unchanged: {md}");
    assert!(!md.contains("import"), "must be the builtin doc, not an import: {md}");
}

#[test]
fn hover_on_plain_identifier_still_none() {
    let src = "//@version=6\nlen = 14\nplot(len)\n";
    let d = document(src, vec![version(), define("len", num("14")), run("plot", vec![id("len")])]);
    // `len` is a user var, not a builtin and not an import → no hover.
    assert!(hover_at(&database(), &d, pos_of(&d, src, "len")).is_none());
}

#[test]
fn words_are_found_at_any_offset() {
    let text = "é.ta.sma. x";
    assert_eq!(word_at(text, 4).as_deref(), Some("ta.sma"));
    assert_eq!(word_at(text, 2).as_deref(), Some("ta.sma"));
    assert_eq!(word_at(text, text.len()).as_deref(), Some("x"));
    // Inside a character, before one, past the end.
    assert_eq!(word_at(text, 1), None);
    assert_eq!(word_at(text, 0), None);
    assert_eq!(word_at(text, text.len() + 1), None);
    assert_eq!(trailing_run(text, 6), ".ta.");
    assert_eq!(trailing_run(text, 99), "x");
}

#[test]
fn hover_reads_dotted_words() {
    let src = "//@version=6\nx = ta.sma(close, color.red)\n";
    let d = document(
        src,
        vec![version(), define("x", call("ta.sma", vec![id("close"), dotted("color.red")]))],
    );
    let db = database();
    let sma = hover_at(&db, &d, pos_of(&d, src, "sma")).unwrap().value;
    assert_eq!(
        sma,
        "```pine\nta.sma(source, length) → series float\n```\n\nSimple moving average."
    );
    let red = hover_at(&db, &d, pos_of(&d, src, "red")).unwrap().value;
    assert_eq!(red, "```pine\ncolor.red: const color\n```\n\nRed.");
    assert!(hover_at(&db, &d, pos_of(&d, src, "= ")).is_none());
}

// ---- completion -------------------------------------------------------------

#[test]
fn completion_after_dot_lists_namespace_members() {
    let d = document("//@version=6\nx = ta.\n", vec![version(), unread(&["x", "ta"])]);
    // cursor right after "ta." → line 1, char 7
    let items = completions_at(&database(), &d, at(1, 7), None);
    assert!(has_label(&items, "sma"), "expected ta.sma");
    assert!(items.iter().all(|i| !i.label.contains('.')), "members are bare");
    assert_eq!(items.len(), 2);
    assert_eq!(items[0].detail.as_deref(), Some("series float"));
    assert_eq!(items[1].detail.as_deref(), Some("ta.sma(source, length) → series float"));
}

#[test]
fn completion_offers_direct_members_only() {
    let d = document("//@version=6\nx = chart.\n", vec![version(), unread(&["x", "chart"])]);
    let items = completions_at(&database(), &d, at(1, 10), None);
    let labels: Vec<&str> = items.iter().map(|i| i.label.as_str()).collect();
    assert_eq!(labels, vec!["bg"]);
}

#[test]
fn completion_top_level_includes_builtins_and_keywords() {
    let d = document("//@version=6\n\n", vec![version()]);
    let items = completions_at(&database(), &d, at(1, 0), None);
    assert!(has_label(&items, "close"));
    assert!(has_label(&items, "if"));
    assert!(items.len() > 400);
}

#[test]
fn completion_top_level_includes_import_alias() {
    let d = document(
        "//@version=6\nimport User/MyLib/1 as myLib\n\n",
        vec![version(), import("User/MyLib/1", Some("myLib"))],
    );
    let items = completions_at(&database(), &d, at(2, 0), None);
    let alias = items.iter().find(|i| i.label == "myLib").expect("myLib completion");
    assert_eq!(alias.kind, CompletionItemKind::Module);
    assert!(
        alias.detail.as_deref().unwrap_or("").contains("User/MyLib/1"),
        "detail: {:?}",
        alias.detail
    );
}

#[test]
fn completion_alias_not_duplicated_for_builtin_namespace() {
    // An import aliased `ta` collides with the builtin `ta.` namespace head.
    let db = database();
    let d = document(
        "//@version=6\nimport User/MyLib/1 as ta\n\n",
        vec![version(), import("User/MyLib/1", Some("ta"))],
    );
    let top = completions_at(&db, &d, at(2, 0), None);
    // No MODULE item named `ta` was added (the builtin namespace is untouched).
    assert!(
        !top.iter().any(|i| i.label == "ta" && i.kind == CompletionItemKind::Module),
        "must not add a spurious `ta` MODULE item"
    );
    // The existing post-dot `ta.` member completion still works.
    let d2 = document(
        "//@version=6\nimport User/MyLib/1 as ta\nx = ta.\n",
        vec![version(), import("User/MyLib/1", Some("ta")), unread(&["x", "ta"])],
    );
    let members = completions_at(&db, &d2, at(2, 7), None);
    assert!(has_label(&members, "sma"), "ta.sma still resolves");
}

#[test]
fn completion_after_dot_unchanged() {
    // With no libraries at hand, `myLib.` must NOT invent members.
    let src = "//@version=6\nimport User/MyLib/1 as myLib\nx = myLib.\n";
    let d = document(
        src,
        vec![version(), import("User/MyLib/1", Some("myLib")), unread(&["x", "myLib"])],
    );
    let after_dot = completions_at(&database(), &d, at(2, 10), None);
    assert!(after_dot.is_empty(), "no fabricated members for `myLib.` with no path");
}

const MATH_UTILS: &str = "//@version=6\nlibrary(\"MathUtils\")\n\nexport add(int a, float b = 1.0) =>\n    a + b\nexport clamp(float x, float lo, float hi) =>\n    x\nhelper(x) =>\n    x\n";

fn math_utils() -> Document {
    document(
        MATH_UTILS,
        vec![
            version(),
            run("library", vec![string("\"MathUtils\"")]),
            declare(
                &["export"],
                "function",
                "add",
                vec![param("", "int", "a", ""), param("", "float", "b", "1.0")],
                binary(id("a"), "+", id("b")),
            ),
            declare(
                &["export"],
                "function",
                "clamp",
                vec![
                    param("", "float", "x", ""),
                    param("", "float", "lo", ""),
                    param("", "float", "hi", ""),
                ],
                id("x"),
            ),
            declare(&[], "function", "helper", plain(&["x"]), id("x")),
        ],
    )
}

/// What is found of the one library that the documents below import.
fn library() -> Option<Vec<LibrarySource>> {
    Some(vec![LibrarySource::Loaded {
        path: PathBuf::from("/libs/math_utils.pine"),
        doc: math_utils(),
    }])
}

fn nothing_found() -> Option<Vec<LibrarySource>> {
    Some(vec![LibrarySource::NotFound])
}

fn importing(src: &str, alias: Option<&str>, rest: Cst) -> Document {
    let mut kids = vec![version()];
    if let Some(line) = src.lines().nth(1) {
        if line.starts_with("///") {
            kids.push(comment(line));
        }
    }
    kids.push(import("User/MathUtils/1", alias));
    kids.push(rest);
    document(src, kids)
}

#[test]
fn completion_after_dot_resolves_imported_lib_members() {
    // The lib's EXPORTED fns appear as bare FUNCTION items; the non-exported
    // `helper` does not.
    let src = "//@version=6\n/// @source math_utils.pine\nimport User/MathUtils/1 as mu\nx = mu.\n";
    let d = importing(src, Some("mu"), unread(&["x", "mu"]));
    let items = completions_at(&database(), &d, at(3, 7), library());
    let add = items.iter().find(|i| i.label == "add").expect("exported `add` member");
    assert_eq!(add.kind, CompletionItemKind::Function);
    assert_eq!(add.detail.as_deref(), Some("add(int a, float b=…)"));
    assert!(has_label(&items, "clamp"), "exported `clamp` member");
    assert!(!has_label(&items, "helper"), "non-exported `helper` must be absent");
    assert!(items.iter().all(|i| !i.label.contains('.')), "members are bare");
}

#[test]
fn completion_after_dot_no_path_degrades() {
    // Same source, but nothing to resolve against: no cross-file members.
    let src = "//@version=6\n/// @source math_utils.pine\nimport User/MathUtils/1 as mu\nx = mu.\n";
    let d = importing(src, Some("mu"), unread(&["x", "mu"]));
    let items = completions_at(&database(), &d, at(3, 7), None);
    assert!(
        !items.iter().any(|i| i.label == "add" || i.label == "clamp"),
        "no cross-file members without a path"
    );
}

#[test]
fn completion_after_dot_published_import_no_members() {
    // No `/// @source` (published import) -> Unresolved -> nothing extra appended.
    let src = "//@version=6\nimport User/MathUtils/1 as mu\nx = mu.\n";
    let d = importing(src, Some("mu"), unread(&["x", "mu"]));
    let items = completions_at(&database(), &d, at(2, 7), library());
    assert!(
        !items.iter().any(|i| i.label == "add" || i.label == "clamp"),
        "published import resolves no local members"
    );
}

#[test]
fn completion_after_dot_missing_source_file_no_panic() {
    // `@source` names a file that does not exist -> NotFound -> empty, no panic.
    let src = "//@version=6\n/// @source does-not-exist.pine\nimport User/MathUtils/1 as mu\nx = mu.\n";
    let d = importing(src, Some("mu"), unread(&["x", "mu"]));
    let items = completions_at(&database(), &d, at(3, 7), nothing_found());
    assert!(
        !items.iter().any(|i| i.label == "add" || i.label == "clamp"),
        "missing @source file yields no members"
    );
}

#[test]
fn completion_aliasless_import_members_resolve() {
    // Aliasless import: the effective namespace falls back to the lib name.
    let src = "//@version=6\n/// @source math_utils.pine\nimport User/MathUtils/1\nx = MathUtils.\n";
    let d = importing(src, None, unread(&["x", "MathUtils"]));
    let items = completions_at(&database(), &d, at(3, 14), library());
    assert!(has_label(&items, "add"), "aliasless `add` resolves");
    assert!(has_label(&items, "clamp"), "aliasless `clamp` resolves");
}

#[test]
fn completion_builtin_namespace_still_works_with_base_dir() {
    // `ta.` still lists builtin members: the additive import path does not
    // regress builtin member completion.
    let d = document("//@version=6\nx = ta.\n", vec![version(), unread(&["x", "ta"])]);
    let items = completions_at(&database(), &d, at(1, 7), Some(Vec::new()));
    assert!(has_label(&items, "sma"), "builtin `ta.sma` still listed");
}

#[test]
fn imported_members_come_after_the_builtin_ones() {
    let src = "//@version=6\n/// @source math_utils.pine\nimport User/MathUtils/1 as ta\nx = ta.\n";
    let d = importing(src, Some("ta"), unread(&["x", "ta"]));
    let plain = completions_at(&database(), &d, at(3, 7), None);
    let with = completions_at(&database(), &d, at(3, 7), library());
    let labels: Vec<&str> = with.iter().map(|i| i.label.as_str()).collect();
    assert_eq!(plain.len(), 2);
    assert_eq!(labels, vec!["rsi", "sma", "add", "clamp"]);
}

#[test]
fn no_import_no_diagnostics_no_completion_change() {
    // A plain indicator/plot doc with zero imports: additive-only proof.
    let d = document(
        "//@version=6\nindicator(\"x\")\nplot(close)\n",
        vec![version(), run("indicator", vec![string("\"x\"")]), run("plot", vec![id("close")])],
    );
    let items = completions_at(&database(), &d, at(3, 0), None);
    assert!(
        !items.iter().any(|i| i.kind == CompletionItemKind::Module),
        "no MODULE items without imports"
    );
}

// ---- exported_detail: synthesized signature strings --------------------------

fn exported(name: &str, declared_type: Option<&str>, has_default: bool) -> ExportedParam {
    ExportedParam {
        name: name.to_string(),
        declared_type: declared_type.map(str::to_string),
        has_default,
    }
}

fn sym(name: &str, kind: ExportKind, params: Vec<ExportedParam>) -> ExportedSymbol {
    ExportedSymbol { name: name.to_string(), kind, params, name_byte_start: 0, name_byte_end: 0 }
}

#[test]
fn exported_detail_function_uses_ellipsis_for_defaults() {
    // The synthesizer has only `has_default` (no default-value text), so a
    // defaulted param renders as `=…`, NOT `=1.0`.
    let add = sym(
        "add",
        ExportKind::Function,
        vec![exported("a", Some("int"), false), exported("b", Some("float"), true)],
    );
    assert_eq!(exported_detail(&add), "add(int a, float b=…)");
}

#[test]
fn exported_detail_typeless_param_omits_type() {
    // `f(int a, c)`: the typeless `c` renders bare (no type prefix).
    let f = sym(
        "f",
        ExportKind::Function,
        vec![exported("a", Some("int"), false), exported("c", None, false)],
    );
    assert_eq!(exported_detail(&f), "f(int a, c)");
}

#[test]
fn exported_detail_type_and_enum_are_empty() {
    let point = sym("Point", ExportKind::Type, Vec::new());
    let color = sym("Color", ExportKind::Enum, Vec::new());
    assert_eq!(exported_detail(&point), "");
    assert_eq!(exported_detail(&color), "");
}

#[test]
fn exports_are_offered_by_kind() {
    let kind = |k: ExportKind| exported_item(&sym("x", k, Vec::new())).kind;
    assert_eq!(kind(ExportKind::Function), CompletionItemKind::Function);
    assert_eq!(kind(ExportKind::Method), CompletionItemKind::Function);
    assert_eq!(kind(ExportKind::Type), CompletionItemKind::Struct);
    assert_eq!(kind(ExportKind::Enum), CompletionItemKind::Enum);
    assert_eq!(exported_item(&sym("x", ExportKind::Enum, Vec::new())).detail, None);
}

// ---- signature help ---------------------------------------------------------

#[test]
fn signature_help_for_builtin_call() {
    let d = document(
        "//@version=6\nx = ta.sma(close, 14)\n",
        vec![version(), define("x", call("ta.sma", vec![id("close"), num("14")]))],
    );
    // cursor on the second arg "14" (line 1, char 18)
    let sh = signature_help(&database(), &d, at(1, 18)).expect("sig help for ta.sma");
    assert_eq!(sh.signatures.len(), 1);
    assert!(!sh.signatures[0].label.is_empty());
    assert_eq!(sh.active_parameter, Some(1), "after one comma → param index 1");
    assert_eq!(sh.active_signature, Some(0));
    let labels: Vec<&str> =
        sh.signatures[0].parameters.iter().map(|p| p.label.as_str()).collect();
    assert_eq!(labels, vec!["source", "length"]);
    assert_eq!(sh.signatures[0].documentation.as_deref(), Some("Simple moving average."));
    assert_eq!(sh.signatures[0].parameters[0].documentation.as_deref(), Some("the source"));
}

#[test]
fn signature_help_stays_on_the_last_parameter() {
    let src = "//@version=6\nplot(close, 1, 2, 3)\nchart.bg(1)\nmine(1)\n";
    let d = document(
        src,
        vec![
            version(),
            run("plot", vec![id("close"), num("1"), num("2"), num("3")]),
            run("chart.bg", vec![num("1")]),
            run("mine", vec![num("1")]),
        ],
    );
    let db = database();
    let sh = signature_help(&db, &d, pos_of(&d, src, "3)")).unwrap();
    assert_eq!(sh.active_parameter, Some(1));
    assert_eq!(sh.signatures[0].label, "plot");
    // No parameters, nothing to point at.
    let bg = signature_help(&db, &d, pos_of(&d, src, "1)\nmine")).unwrap();
    assert_eq!(bg.active_parameter, None);
    // Only builtins have signatures here.
    assert!(signature_help(&db, &d, at(3, 5)).is_none());
    assert!(signature_help(&db, &d, at(0, 3)).is_none());
}

// ---- symbols, definitions, references, renaming ------------------------------

#[test]
fn document_symbols_lists_user_defs() {
    let d = document(
        "//@version=6\nlen = 14\nf(a) =>\n    a\n",
        vec![
            version(),
            define("len", num("14")),
            declare(&[], "function", "f", plain(&["a"]), id("a")),
        ],
    );
    let symbols = document_symbols(&d);
    assert_eq!(symbols[1].kind, OutlineKind::Function);
    assert_eq!(symbols[1].range, Range { start: at(2, 0), end: at(2, 1) });
    let names: Vec<String> = symbols.into_iter().map(|s| s.name).collect();
    assert!(names.iter().any(|n| n == "len"));
    assert!(names.iter().any(|n| n == "f"));
    assert!(!names.iter().any(|n| n == "a"), "params excluded from doc symbols");
}

/// A function with a variable of its own.
fn local_doc(src: &str) -> Document {
    document(
        src,
        vec![
            version(),
            node(
                "function_declaration_statement",
                vec![
                    under("function", id("f")),
                    tok("("),
                    under("argument", id("x")),
                    tok(")"),
                    tok("=>"),
                    under(
                        "body",
                        block(vec![
                            define("a", binary(id("x"), "+", num("1"))),
                            simple(binary(id("a"), "*", num("2"))),
                        ]),
                    ),
                ],
            ),
            run("plot", vec![call("f", vec![id("close")])]),
        ],
    )
}

#[test]
fn local_variables_are_no_symbols_of_the_document() {
    let src = "//@version=6\nf(x) =>\n    a = x + 1\n    a * 2\nplot(f(close))\n";
    let d = local_doc(src);
    let names: Vec<String> = document_symbols(&d).into_iter().map(|s| s.name).collect();
    assert_eq!(names, vec!["f".to_string()]);
    // Neither is a local variable gone to; a parameter and a function are.
    assert!(goto_definition(&d, pos_of(&d, src, "a * 2"), "u", None).is_none());
    let parameter = goto_definition(&d, pos_of(&d, src, "x + 1"), "u", None);
    assert!(matches!(
        parameter,
        Some(GotoTarget::Here(l)) if l.range == Range { start: at(1, 2), end: at(1, 3) }
    ));
    let function = goto_definition(&d, pos_of(&d, src, "f(close"), "u", None);
    assert!(matches!(
        function,
        Some(GotoTarget::Here(l)) if l.range == Range { start: at(1, 0), end: at(1, 1) }
    ));
}

fn len_doc(src: &str) -> Document {
    document(
        src,
        vec![
            version(),
            define("len", num("14")),
            define("z", binary(id("len"), "+", num("1"))),
        ],
    )
}

#[test]
fn definition_references_rename_roundtrip() {
    let src = "//@version=6\nlen = 14\nz = len + 1\n";
    let d = len_doc(src);
    let db = database();
    let uri = "file:///t.pine";
    let use_byte = src.rfind("len").unwrap();
    let (ul, uc) = d.position_at(use_byte);
    let pos = at(ul, uc);

    assert!(goto_definition(&d, pos, uri, None).is_some());
    assert_eq!(references(&d, pos, uri).len(), 2);

    let edit = rename(&db, &d, pos, "length", uri).unwrap();
    let n = edit.edits.len();
    assert_eq!(n, 2, "rename edits both occurrences");
    assert_eq!(edit.uri, uri);
    assert_eq!(edit.edits[0].range, Range { start: at(1, 0), end: at(1, 3) });
    assert_eq!(edit.edits[1].range, Range { start: at(2, 4), end: at(2, 7) });
    assert!(edit.edits.iter().all(|e| e.new_text == "length"));
    assert_eq!(
        prepare_rename(&db, &d, pos),
        Some(Range { start: at(2, 4), end: at(2, 7) })
    );
}

#[test]
fn no_rename_on_builtin() {
    let d = plot_close("//@version=6\nplot(close)\n");
    let db = database();
    assert!(prepare_rename(&db, &d, at(1, 5)).is_none(), "close is builtin");
    assert!(rename(&db, &d, at(1, 5), "x", "u").is_none());
}

#[test]
fn nothing_to_rename_outside_identifiers() {
    let d = len_doc("//@version=6\nlen = 14\nz = len + 1\n");
    let db = database();
    assert!(rename(&db, &d, at(1, 6), "x", "u").is_none());
    assert!(prepare_rename(&db, &d, at(1, 6)).is_none());
    assert!(references(&d, at(1, 6), "u").is_empty());
    assert!(goto_definition(&d, at(1, 6), "u", None).is_none());
}

fn using(src: &str, member: &str, args: Vec<Cst>) -> Document {
    importing(src, Some("mu"), define("x", call(member, args)))
}

fn add_use(src: &str) -> Document {
    using(src, "mu.add", vec![num("1"), leaf("float", "2.0")])
}

const USE_ADD: &str =
    "//@version=6\n/// @source math_utils.pine\nimport User/MathUtils/1 as mu\nx = mu.add(1, 2.0)\n";

#[test]
fn goto_on_imported_member_jumps_into_lib() {
    // Cursor on `add` in `mu.add` jumps to the `add` export's name in
    // math_utils.pine (row 3).
    let src = USE_ADD;
    let d = add_use(src);
    let pos = pos_of(&d, src, "add(1, 2.0)"); // the member `add` on the use line
    let target =
        goto_definition(&d, pos, "file:///main.pine", library()).expect("cross-file goto");
    let GotoTarget::Library { path, start, end } = target else {
        panic!("expected a location in the library");
    };
    assert!(path.ends_with("math_utils.pine"), "must point at the lib: {path:?}");
    // `add` is declared on row 3 (0-indexed), column 7 (`export add`).
    let range = library_range(&math_utils(), start, end);
    assert_eq!(range.start.line, 3, "row of the `add` export");
    assert_eq!(range.start.character, 7, "col of the `add` name");
    assert_eq!(&MATH_UTILS[start..end], "add");
}

#[test]
fn goto_on_imported_member_without_base_dir_is_none() {
    // Nothing to resolve against; `add` is not a same-file symbol either.
    let src = USE_ADD;
    let d = add_use(src);
    let pos = pos_of(&d, src, "add(1, 2.0)");
    assert!(goto_definition(&d, pos, "file:///main.pine", None).is_none());
}

#[test]
fn goto_same_file_still_works_with_base_dir() {
    // A local symbol still resolves within the file.
    let src = "//@version=6\nlen = 14\nz = len + 1\n";
    let d = len_doc(src);
    let use_byte = src.rfind("len").unwrap();
    let (ul, uc) = d.position_at(use_byte);
    assert!(goto_definition(&d, at(ul, uc), "file:///main.pine", Some(Vec::new())).is_some());
}

#[test]
fn goto_on_unexported_member_is_none() {
    // `helper` is defined in math_utils.pine but NOT exported -> no jump.
    let src = "//@version=6\n/// @source math_utils.pine\nimport User/MathUtils/1 as mu\nx = mu.helper(1)\n";
    let d = using(src, "mu.helper", vec![num("1")]);
    let pos = pos_of(&d, src, "helper(1)");
    assert!(goto_definition(&d, pos, "file:///main.pine", library()).is_none());
}

#[test]
fn goto_on_published_import_member_is_none() {
    // No `/// @source` (published import) -> Unresolved -> no cross-file goto.
    let src = "//@version=6\nimport User/MathUtils/1 as mu\nx = mu.add(1, 2.0)\n";
    let d = add_use(src);
    let pos = pos_of(&d, src, "add(1, 2.0)");
    assert!(goto_definition(&d, pos, "file:///main.pine", library()).is_none());
}

#[test]
fn goto_on_alias_object_side_does_not_jump_into_lib() {
    // Cursor on the OBJECT `mu` (not the member) must not be hijacked by the
    // cross-file member path: the alias `mu` IS a same-file symbol.
    let src = USE_ADD;
    let d = add_use(src);
    // The `mu` on the use line (line 3), distinct from the import line.
    let use_line_byte = src.rfind("mu.add").unwrap();
    let (ul, uc) = d.position_at(use_line_byte);
    let target = goto_definition(&d, at(ul, uc), "file:///main.pine", library())
        .expect("alias goto resolves to its import in-file");
    let GotoTarget::Here(location) = target else {
        panic!("object-side cursor must stay in the main file");
    };
    assert_eq!(location.uri, "file:///main.pine", "stays in the main document");
    assert_eq!(location.range.start, at(2, 27));
}

// ---- folding, formatting, fixes ----------------------------------------------

#[test]
fn folding_for_multiline_function() {
    let body = node(
        "block",
        vec![define("a", binary(id("x"), "+", num("1"))), simple(binary(id("a"), "*", num("2")))],
    );
    let d = document(
        "//@version=6\nf(x) =>\n    a = x + 1\n    a * 2\nplot(f(close))\n",
        vec![
            version(),
            declare(&[], "function", "f", plain(&["x"]), body),
            run("plot", vec![call("f", vec![id("close")])]),
        ],
    );
    let folds = folding_ranges(&d);
    assert!(!folds.is_empty(), "function body should fold");
    assert_eq!((folds[0].start_line, folds[0].end_line), (1, 3));
    assert!(folds.iter().all(|f| f.start_line < f.end_line));
}

#[test]
fn format_trims_and_normalizes() {
    let d = plot_close("//@version=6  \nplot(close)   \n\n\n");
    let edits = format_document(&d).expect("should reformat");
    assert_eq!(edits.len(), 1);
    assert_eq!(edits[0].new_text, "//@version=6\nplot(close)\n");
    assert_eq!(edits[0].range, Range { start: at(0, 0), end: at(4, 0) });
}

#[test]
fn format_noop_when_clean() {
    let d = plot_close("//@version=6\nplot(close)\n");
    assert!(format_document(&d).is_none());
}

#[test]
fn formatting_twice_changes_nothing() {
    for text in ["", " \n\t\n", "a", "a \n\n b\t\u{3000}\n \n", "\n\nx\r\ny\r\n"] {
        let once = format_text(text);
        assert_eq!(format_text(&once), once);
        assert!(once.is_empty() || (once.ends_with('\n') && !once.ends_with("\n\n")));
        assert!(once.split('\n').all(|line| line == line.trim_end()));
    }
    assert_eq!(format_text("a \n\n b\t\u{3000}\n \n"), "a\n\n b\n");
    assert_eq!(format_text(" \n\t\n"), "");
}

fn no_range() -> Range {
    Range { start: at(0, 0), end: at(0, 0) }
}

#[test]
fn code_action_adds_version() {
    let diag = EditorDiagnostic {
        range: no_range(),
        severity: None,
        code: Some("missing-version".to_string()),
        source: None,
        message: String::new(),
    };
    let actions = code_actions(&vec![diag], "file:///t.pine");
    assert_eq!(actions.len(), 1);
    assert_eq!(actions[0].title, "Add `//@version=6`");
    assert_eq!(actions[0].edit.uri, "file:///t.pine");
    assert_eq!(actions[0].edit.edits[0].new_text, "//@version=6\n");
    assert_eq!(actions[0].edit.edits[0].range, no_range());
}

#[test]
fn other_diagnostics_have_no_fix() {
    let with = |code: Option<&str>| EditorDiagnostic {
        range: no_range(),
        severity: None,
        code: code.map(str::to_string),
        source: None,
        message: String::new(),
    };
    let list = vec![with(None), with(Some("unused-variable")), with(Some("missing-version"))];
    let actions = code_actions(&list, "u");
    assert_eq!(actions.len(), 1);
    assert_eq!(actions[0].diagnostic, 2);
}

// ---- semantic tokens, inlay hints --------------------------------------------

fn sma_doc() -> Document {
    document(
        "//@version=6\nx = ta.sma(close, 14)\nplot(x)\n",
        vec![
            version(),
            define("x", call("ta.sma", vec![id("close"), num("14")])),
            run("plot", vec![id("x")]),
        ],
    )
}

#[test]
fn semantic_tokens_classify_builtins_and_literals() {
    let toks = semantic_tokens(&database(), &sma_doc());
    assert!(!toks.is_empty());
    let types: Vec<u32> = toks.iter().map(|t| t.token_type).collect();
    assert!(types.contains(&T_FUNCTION), "plot → function");
    assert!(types.contains(&T_NUMBER), "14 → number");
    assert!(types.contains(&T_NAMESPACE), "ta → namespace");
    assert!(types.contains(&T_COMMENT), "//@version → comment");
    // close is a builtin variable → defaultLibrary modifier present somewhere
    assert!(toks.iter().any(|t| t.token_modifiers_bitset & M_DEFAULT_LIBRARY != 0));
}

#[test]
fn semantic_tokens_decode_to_their_places() {
    let toks = semantic_tokens(&database(), &sma_doc());
    let (mut line, mut start) = (0, 0);
    let mut found: Vec<(u32, u32, u32, u32)> = Vec::new();
    for t in &toks {
        start = if t.delta_line == 0 { start + t.delta_start } else { t.delta_start };
        line += t.delta_line;
        found.push((line, start, t.length, t.token_type));
    }
    assert_eq!(
        found,
        vec![
            (0, 0, 12, T_COMMENT),
            (1, 0, 1, T_VARIABLE),
            (1, 4, 2, T_NAMESPACE),
            (1, 7, 3, T_PROPERTY),
            (1, 11, 5, T_VARIABLE),
            (1, 18, 2, T_NUMBER),
            (2, 0, 4, T_FUNCTION),
            (2, 5, 1, T_VARIABLE),
        ]
    );
}

#[test]
fn semantic_tokens_classify_user_symbols() {
    let src = "f(a) =>\n    a\nf(\"😀\")\n";
    let d = document(
        src,
        vec![
            declare(&[], "function", "f", plain(&["a"]), id("a")),
            run("f", vec![string("\"😀\"")]),
        ],
    );
    let toks: Vec<(u32, u32, u32)> = semantic_tokens(&database(), &d)
        .iter()
        .map(|t| (t.token_type, t.token_modifiers_bitset, t.length))
        .collect();
    assert_eq!(
        toks,
        vec![
            (T_FUNCTION, M_DECLARATION, 1),
            (T_PARAMETER, 0, 1),
            (T_PARAMETER, 0, 1),
            (T_FUNCTION, M_DECLARATION, 1),
            (T_STRING, 0, 4),
        ]
    );
}

#[test]
fn inlay_hints_label_builtin_args() {
    let d = document(
        "//@version=6\nplot(ta.sma(close, 14))\n",
        vec![version(), run("plot", vec![call("ta.sma", vec![id("close"), num("14")])])],
    );
    let hints = inlay_hints(&database(), &d);
    assert!(!hints.is_empty(), "expected parameter inlay hints");
    for h in &hints {
        assert!(h.label.ends_with(':'), "label `{}`", h.label);
    }
    let all: Vec<(Position, &str)> =
        hints.iter().map(|h| (h.position, h.label.as_str())).collect();
    assert_eq!(all, vec![(at(1, 5), "series:"), (at(1, 12), "source:"), (at(1, 19), "length:")]);
}

#[test]
fn inlay_hints_skip_named_and_surplus_arguments() {
    let d = document(
        "plot(title=close, 1, 2, 3)\n",
        vec![run("plot", vec![keyword("title", id("close")), num("1"), num("2"), num("3")])],
    );
    let hints = inlay_hints(&database(), &d);
    let labels: Vec<&str> = hints.iter().map(|h| h.label.as_str()).collect();
    assert_eq!(labels, vec!["series:", "title:"]);
}

// ---- import-resolution cache --------------------------------------------------

fn doc_importing(source: &str) -> Document {
    let src = format!("//@version=6\n/// @source {source}\nimport User/Lib/1 as L\n");
    document(
        &src,
        vec![version(), comment(&format!("/// @source {source}")), import("User/Lib/1", Some("L"))],
    )
}

const FAKE_URI: &str = "file:///cache_test/main.pine";

/// A library with one export.
fn lib_exporting(name: &str, value: &str) -> LibrarySource {
    let src = format!("//@version=6\nexport {name}() =>\n    {value}\n");
    LibrarySource::Loaded {
        path: PathBuf::from("/base/lib.pine"),
        doc: document(
            &src,
            vec![version(), declare(&["export"], "function", name, vec![], num(value))],
        ),
    }
}

fn key_at(doc: &Document, modified: Option<Modified>) -> Vec<KeyEntry> {
    import_cache_key(
        import_sources(doc)
            .into_iter()
            .map(|s| KeyEntry {
                namespace: s.namespace,
                path: format!("/base/{}", s.path),
                modified,
            })
            .collect(),
    )
}

fn facts(key: &[KeyEntry]) -> Vec<(String, Option<Modified>)> {
    key.iter().map(|k| (k.path.clone(), k.modified)).collect()
}

fn member_names(resolved: &[(String, ImportResolution)], namespace: &str) -> Vec<String> {
    resolved
        .iter()
        .find(|(ns, _)| ns == namespace)
        .and_then(|(_, res)| match res {
            ImportResolution::Resolved { symbols, .. } => {
                Some(symbols.iter().map(|s| s.name.clone()).collect())
            }
            _ => None,
        })
        .unwrap_or_default()
}

const NOW: Option<Modified> = Some(Modified { seconds: 1_700_000_000, nanos: 5 });
const EPOCH: Option<Modified> = Some(Modified { seconds: 0, nanos: 0 });

#[test]
fn cache_hit_serves_stored_projection_without_reresolving() {
    let doc = doc_importing("./lib.pine");
    let mut cache = ImportCache::new();

    // First call populates the cache from the lib.
    let first = resolve_imports_cached(
        &mut cache,
        FAKE_URI,
        &doc,
        key_at(&doc, NOW),
        vec![lib_exporting("one", "1")],
    );
    assert_eq!(member_names(&first, "L"), vec!["one".to_string()]);

    // Plant a DELIBERATELY-WRONG resolved payload under the *current* key.
    // If the next call serves it back, the cache-hit path ran.
    cache.store(
        FAKE_URI,
        key_at(&doc, NOW),
        vec![(
            "L".to_string(),
            ImportResolution::Resolved { path: PathBuf::from("/base/lib.pine"), symbols: vec![] },
        )],
    );
    let second = resolve_imports_cached(
        &mut cache,
        FAKE_URI,
        &doc,
        key_at(&doc, NOW),
        vec![lib_exporting("one", "1")],
    );
    assert!(
        member_names(&second, "L").is_empty(),
        "cache hit must serve the stored (planted-empty) projection, not re-resolve"
    );
}

#[test]
fn cache_invalidates_when_lib_mtime_changes() {
    let doc = doc_importing("./lib.pine");
    let mut cache = ImportCache::new();
    let first = resolve_imports_cached(
        &mut cache,
        FAKE_URI,
        &doc,
        key_at(&doc, NOW),
        vec![lib_exporting("one", "1")],
    );
    assert_eq!(member_names(&first, "L"), vec!["one".to_string()]);

    // Simulate a stale edit: a new export, and a cache entry whose time differs.
    cache.store(FAKE_URI, key_at(&doc, EPOCH), first);
    let second = resolve_imports_cached(
        &mut cache,
        FAKE_URI,
        &doc,
        key_at(&doc, NOW),
        vec![lib_exporting("two", "2")],
    );
    assert_eq!(
        member_names(&second, "L"),
        vec!["two".to_string()],
        "a changed lib (key mismatch) must re-resolve and reflect new contents"
    );
}

#[test]
fn cache_key_changes_when_source_file_created_or_deleted() {
    let doc = doc_importing("./lib.pine");

    // File absent -> sentinel `None` mtime.
    let key_absent = key_at(&doc, None);
    assert_eq!(key_absent.len(), 1);
    assert!(
        key_absent[0].modified.is_none(),
        "missing @source lib must key on a None mtime sentinel"
    );

    // File created -> key gains a real mtime, so it differs from absent.
    let key_present = key_at(&doc, NOW);
    assert!(
        key_present[0].modified.is_some(),
        "present @source lib must key on a real mtime"
    );
    assert_ne!(
        key_absent, key_present,
        "creating the @source file must change the cache key (invalidate)"
    );

    // File deleted -> key returns to the sentinel form.
    let key_deleted = key_at(&doc, None);
    assert_eq!(
        key_absent, key_deleted,
        "deleting the @source file must change the key back to the sentinel"
    );

    // The cache serves under its own key and no other.
    let mut cache = ImportCache::new();
    cache.store(FAKE_URI, key_absent, Vec::new());
    assert!(cache.lookup(FAKE_URI, &key_present).is_none());
    assert!(cache.lookup(FAKE_URI, &key_deleted).is_some());
}

#[test]
fn no_base_dir_keys_empty_and_no_fs_touch() {
    // The cache key for a doc with no @source entries is empty.
    let doc = document(
        "//@version=6\nimport TV/Strategy/2\n",
        vec![version(), import("TV/Strategy/2", None)],
    );
    let key = key_at(&doc, NOW);
    assert!(key.is_empty(), "an import with no @source contributes nothing to the key");
}

#[test]
fn keys_do_not_depend_on_the_order_of_imports() {
    let entry = |path: &str, modified: Option<Modified>| KeyEntry {
        namespace: "L".to_string(),
        path: path.to_string(),
        modified,
    };
    let one = import_cache_key(vec![entry("/b", NOW), entry("/a", None), entry("/b", EPOCH)]);
    let two = import_cache_key(vec![entry("/b", EPOCH), entry("/b", NOW), entry("/a", None)]);
    assert_eq!(one, two);
    assert_eq!(
        facts(&one),
        vec![
            ("/a".to_string(), None),
            ("/b".to_string(), EPOCH),
            ("/b".to_string(), NOW),
        ]
    );
    let three = import_cache_key(vec![entry("/b", EPOCH), entry("/b", EPOCH), entry("/a", None)]);
    assert_ne!(one, three);
}

#[test]
fn another_namespace_is_another_key() {
    let entry = |namespace: &str| KeyEntry {
        namespace: namespace.to_string(),
        path: "/b".to_string(),
        modified: NOW,
    };
    let doc = doc_importing("./lib.pine");
    assert_eq!(import_sources(&doc)[0].namespace, "L");
    assert_eq!(import_sources(&doc)[0].path, "./lib.pine");
    let key = import_cache_key(vec![entry("M"), entry("L")]);
    assert_eq!(key, import_cache_key(vec![entry("L"), entry("M")]));
    assert_eq!(key[0].namespace, "L");
    let mut cache = ImportCache::new();
    cache.store(FAKE_URI, import_cache_key(vec![entry("L")]), Vec::new());
    assert!(cache.lookup(FAKE_URI, &import_cache_key(vec![entry("L")])).is_some());
    assert!(cache.lookup(FAKE_URI, &import_cache_key(vec![entry("M")])).is_none());
}

#[test]
fn a_closed_document_is_forgotten() {
    let doc = doc_importing("./lib.pine");
    let mut cache = ImportCache::new();
    cache.store("file:///a", key_at(&doc, NOW), Vec::new());
    cache.store("file:///b", key_at(&doc, NOW), Vec::new());
    cache.remove("file:///a");
    assert!(cache.lookup("file:///a", &key_at(&doc, NOW)).is_none());
    assert!(cache.lookup("file:///b", &key_at(&doc, NOW)).is_some());
}

// ---- the server ---------------------------------------------------------------

#[test]
fn workspace_symbols_ignore_case() {
    let d = document(
        "//@version=6\nMyLen = 14\nÉcart = 2\nf(arg) =>\n    arg\n",
        vec![
            version(),
            define("MyLen", num("14")),
            define("Écart", num("2")),
            declare(&[], "function", "f", plain(&["arg"]), id("arg")),
        ],
    );
    let names = |query: &str| -> Vec<String> {
        workspace_symbols(&d, "file:///t.pine", query).into_iter().map(|s| s.name).collect()
    };
    assert_eq!(names("mylen"), vec!["MyLen"]);
    assert_eq!(names("YL"), vec!["MyLen"]);
    assert_eq!(names("éCART"), vec!["Écart"]);
    assert_eq!(names(""), vec!["MyLen", "Écart", "f"]);
    assert!(names("arg").is_empty());
    let found = workspace_symbols(&d, "file:///t.pine", "f");
    assert_eq!(found[0].location.uri, "file:///t.pine");
    assert_eq!(found[0].location.range.start, at(3, 0));
    assert_eq!(found[0].kind, OutlineKind::Function);
}

#[test]
fn the_server_announces_its_features() {
    let c = capabilities();
    assert!(c.incremental_sync && c.hover && c.rename_with_prepare && c.semantic_tokens_full);
    assert_eq!(c.completion_triggers, vec!["."]);
    assert_eq!(c.signature_triggers, vec!["(", ","]);
    assert_eq!(c.legend.token_types[T_FUNCTION as usize], "function");
    assert_eq!(c.legend.token_types[T_PROPERTY as usize], "property");
    assert_eq!(c.legend.token_types[0], "keyword");
    assert_eq!(c.legend.token_modifiers, vec!["defaultLibrary", "declaration"]);
}

// ---- the command line -----------------------------------------------------------

#[test]
fn reports_name_file_place_and_code() {
    let d = document(
        "//@version=6\n  len := len\nf(a, a) =>\n    a\n",
        vec![
            version(),
            simple(node(
                "reassignment",
                vec![
                    under("variable", id("len")),
                    under("operator", tok(":=")),
                    under("value", id("len")),
                ],
            )),
            declare(&[], "function", "f", plain(&["a", "a"]), id("a")),
        ],
    );
    let diags = analyze(&d);
    assert_eq!(
        report_lines("a.pine", &d, &diags),
        vec![
            "a.pine:2:3: warning: Self-assignment `len := len` has no effect [self-assignment]",
            "a.pine:3:6: error: Duplicate parameter `a` in function definition [duplicate-parameter]",
        ]
    );
    assert_eq!(exit_status(&diags), 1);
    let r = report("a.pine", &d, &diags);
    assert_eq!(r.file, "a.pine");
    assert_eq!(r.diagnostics.len(), 2);
    assert_eq!(r.diagnostics[0].severity, "warning");
    assert_eq!(r.diagnostics[1].code, "duplicate-parameter");
    assert_eq!(r.diagnostics[0].range, Range { start: at(1, 2), end: at(1, 12) });
}

#[test]
fn clean_files_have_no_issues() {
    let d = plot_close("//@version=6\nplot(close)\n");
    let diags = analyze(&d);
    assert_eq!(report_lines("b.pine", &d, &diags), vec!["b.pine: no issues"]);
    assert_eq!(exit_status(&diags), 0);
    assert_eq!(report("b.pine", &d, &diags).diagnostics.len(), 0);
}

#[test]
fn warnings_do_not_fail_a_file() {
    let d = document("plot(close)\n", vec![run("plot", vec![id("close")])]);
    let diags = analyze(&d);
    assert_eq!(diags.len(), 1);
    assert_eq!(exit_status(&diags), 0);
    assert_eq!(sev_str(diags[0].severity), "warning");
}

// ---- the tools --------------------------------------------------------------------

#[test]
fn validation_of_documents() {
    assert_eq!(validate_document(None), "Failed to parse.");
    assert_eq!(
        validate_document(Some(plot_close("//@version=6\nplot(close)\n"))),
        "No issues found."
    );
    let d = document(
        "strategy(\"S\")\nb = 1\n",
        vec![run("strategy", vec![string("\"S\"")]), define("b", num("1"))],
    );
    let text = validate_document(Some(d));
    let lines: Vec<&str> = text.split('\n').collect();
    assert_eq!(lines.len(), 3);
    assert_eq!(lines[0], "1:1: Warning: Missing `//@version=6` directive [missing-version]");
    assert!(lines[1].starts_with("1:1: Info: ") && lines[1].ends_with("[strategy-no-orders]"));
    assert_eq!(
        lines[2],
        "2:1: Warning: Variable `b` is declared but never used [unused-variable]"
    );
}

#[test]
fn lookups_of_every_kind() {
    let db = database();
    assert_eq!(
        lookup(&db, "ta.sma"),
        "ta.sma(source, length) → series float\n\nSimple moving average.\n\nreturns: series float"
    );
    assert_eq!(lookup(&db, "close"), "close: series float\n\nA price.");
    assert_eq!(lookup(&db, "color.red"), "color.red: const color");
    assert_eq!(lookup(&db, "nope"), "`nope` not found");
}

#[test]
fn function_lists_are_sorted() {
    let db = database();
    assert_eq!(list_functions(&db, Some("ta")), "ta.rsi\nta.sma");
    assert_eq!(list_functions(&db, Some("nope")), "(none)");
    let all = list_functions(&db, None);
    let names: Vec<&str> = all.split('\n').collect();
    assert_eq!(names.len(), 457);
    assert!(names.windows(2).all(|w| w[0] <= w[1]));
}

fn language() -> Language {
    tree_sitter_json::LANGUAGE.into()
}

fn reply(line: &str) -> Option<Value> {
    respond(&database(), &language(), "1.2.3", line)
        .map(|text| serde_json::from_str(&text).expect("a JSON reply"))
}

fn answer_text(line: &str) -> String {
    let value = reply(line).expect("a reply");
    value["result"]["content"][0]["text"].as_str().expect("a text").to_string()
}

#[test]
fn requests_are_answered_under_their_id() {
    let hello = reply("{\"jsonrpc\":\"2.0\",\"id\":7,\"method\":\"initialize\"}").unwrap();
    assert_eq!(hello["jsonrpc"], "2.0");
    assert_eq!(hello["id"], 7);
    assert_eq!(hello["result"]["protocolVersion"], "2024-11-05");
    assert_eq!(hello["result"]["serverInfo"]["name"], "pine-script");
    assert_eq!(hello["result"]["serverInfo"]["version"], "1.2.3");
    assert!(hello["result"]["capabilities"]["tools"].is_object());
    let ping = reply("{\"id\":\"p\",\"method\":\"ping\"}").unwrap();
    assert_eq!(ping["id"], "p");
    assert_eq!(ping["result"].as_object().unwrap().len(), 0);
    assert_eq!(
        respond(&database(), &language(), "v", "{\"id\":1,\"method\":\"ping\"}").as_deref(),
        Some("{\"id\":1,\"jsonrpc\":\"2.0\",\"result\":{}}")
    );
}

#[test]
fn notifications_and_unknown_methods_are_not_answered() {
    for line in [
        "",
        "  \t",
        "no json",
        "{\"method\":\"ping\"}",
        "{\"method\":\"notifications/initialized\"}",
        "{\"id\":1,\"method\":\"nope\"}",
        "{\"id\":1}",
        "[1]",
    ] {
        assert!(reply(line).is_none(), "{line}");
    }
}

#[test]
fn the_tools_are_listed() {
    let list = reply("{\"id\":1,\"method\":\"tools/list\"}").unwrap();
    let tools = list["result"]["tools"].as_array().unwrap();
    let names: Vec<&str> = tools.iter().map(|t| t["name"].as_str().unwrap()).collect();
    assert_eq!(
        names,
        vec!["pine_validate", "pine_lookup", "pine_list_functions", "pine_format"]
    );
    assert_eq!(tools[0]["inputSchema"]["type"], "object");
    assert_eq!(tools[0]["inputSchema"]["properties"]["code"]["type"], "string");
    assert_eq!(tools[0]["inputSchema"]["required"][0], "code");
    assert!(tools[2]["inputSchema"].get("required").is_none());
    assert!(tools[3]["description"].as_str().unwrap().starts_with("Format"));
}

#[test]
fn tool_calls_answer_with_text() {
    let call = |name: &str, args: &str| {
        answer_text(&format!(
            "{{\"id\":1,\"method\":\"tools/call\",\"params\":{{\"name\":\"{name}\",\"arguments\":{args}}}}}"
        ))
    };
    assert_eq!(call("pine_lookup", "{\"name\":\"color.red\"}"), "color.red: const color");
    assert_eq!(call("pine_lookup", "{}"), "`` not found");
    assert_eq!(call("pine_list_functions", "{\"namespace\":\"ta\"}"), "ta.rsi\nta.sma");
    assert_eq!(call("pine_list_functions", "{\"namespace\":3}").split('\n').count(), 457);
    assert_eq!(call("pine_format", "{\"code\":\"a  \\n\\n\"}"), "a\n");
    assert_eq!(
        call("pine_validate", "{\"code\":\"[1]\"}"),
        "1:1: Warning: Missing `//@version=6` directive [missing-version]"
    );
}

#[test]
fn unknown_tools_are_errors() {
    let line = "{\"id\":1,\"method\":\"tools/call\",\"params\":{\"name\":\"x\"}}";
    let value = reply(line).unwrap();
    assert_eq!(value["result"]["isError"], true);
    assert_eq!(value["result"]["content"][0]["type"], "text");
    assert_eq!(answer_text(line), "unknown tool: x");
    assert_eq!(answer_text("{\"id\":1,\"method\":\"tools/call\"}"), "unknown tool: ");
    let known = reply("{\"id\":1,\"method\":\"tools/call\",\"params\":{\"name\":\"pine_format\"}}");
    assert!(known.unwrap()["result"].get("isError").is_none());
}

// ---- places -----------------------------------------------------------------------

#[test]
fn every_diagnostic_lies_on_characters() {
    let src = "strategy(\"é😀\")\nd\u{e9} = 1\nclose[-1]\nx := x\n";
    let d = document(
        src,
        vec![
            run("strategy", vec![string("\"é😀\"")]),
            define("dé", num("1")),
            simple(node(
                "subscript",
                vec![
                    under("series", id("close")),
                    tok("["),
                    under("offset", node("unary_operation", vec![tok("-"), num("1")])),
                    tok("]"),
                ],
            )),
            simple(node(
                "reassignment",
                vec![
                    under("variable", id("x")),
                    under("operator", tok(":=")),
                    under("value", id("x")),
                ],
            )),
        ],
    );
    let diags = analyze(&d);
    assert_eq!(diags.len(), 5);
    for one in &diags {
        assert!(src.get(one.start_byte..one.end_byte).is_some());
    }
    assert!(diags.windows(2).all(|w| (w[0].start_byte, w[0].end_byte)
        <= (w[1].start_byte, w[1].end_byte)));
}

#[test]
fn ranges_lead_back_to_their_bytes() {
    let src = "a = \"😀é\"\nbé\n";
    let d = document(src, vec![define("a", string("\"😀é\"")), id("bé")]);
    let ends: Vec<usize> = (0..=src.len()).filter(|b| src.is_char_boundary(*b)).collect();
    for &start in &ends {
        for &end in &ends {
            let range = byte_range(&d, start, end);
            assert_eq!(d.offset_at(range.start.line, range.start.character), start);
            assert_eq!(d.offset_at(range.end.line, range.end.character), end);
        }
    }
}

#[test]
fn tokens_stay_in_the_legend() {
    let legend = semantic_token_legend();
    for t in semantic_tokens(&database(), &sma_doc()) {
        assert!((t.token_type as usize) < legend.token_types.len());
        assert!(t.token_modifiers_bitset <= M_DEFAULT_LIBRARY + M_DECLARATION);
    }
}
