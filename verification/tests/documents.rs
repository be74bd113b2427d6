//! Symbols, imports and checks over documents whose trees are written down here.

use pine_rs::check::{analyze, Diagnostic, Severity};
use pine_rs::document::Document;
use pine_rs::imports::{
    exported_symbols, import_table, load_library, parse_source_directive, resolve_imports,
    safe_local_path,
    ExportKind, ExportedParam, ExportedSymbol, ImportResolution, ImportTable, LibrarySource,
    PathProbe, ResolvedImports,
};
use pine_rs::symbols::{definitions, identifier_at, is_nested_node, references, SymbolKind};
use pine_rs::syntax::Node;
use std::path::PathBuf;

// A syntax tree as it is written down in these tests: leaves carry their text,
// and the spans follow from the source.
struct Cst {
    kind: String,
    field: Option<String>,
    named: bool,
    error: bool,
    missing: bool,
    text: Option<String>,
    kids: Vec<Cst>,
}

fn leaf(kind: &str, text: &str) -> Cst {
    Cst {
        kind: kind.to_string(),
        field: None,
        named: true,
        error: false,
        missing: false,
        text: Some(text.to_string()),
        kids: Vec::new(),
    }
}

fn tok(text: &str) -> Cst {
    Cst { named: false, ..leaf(text, text) }
}

fn node(kind: &str, kids: Vec<Cst>) -> Cst {
    Cst { text: None, kids, ..leaf(kind, "") }
}

fn under(field: &str, tree: Cst) -> Cst {
    Cst { field: Some(field.to_string()), ..tree }
}

fn broken_up(kids: Vec<Cst>) -> Cst {
    Cst { error: true, ..node("ERROR", kids) }
}

fn missing(kind: &str) -> Cst {
    Cst { missing: true, named: false, ..leaf(kind, "") }
}

fn lay(tree: &Cst, src: &str, at: &mut usize, depth: usize, out: &mut Vec<Node>) -> (usize, usize, bool) {
    let slot = out.len();
    out.push(Node {
        kind: tree.kind.clone(),
        field: tree.field.clone(),
        named: tree.named,
        error: tree.error,
        missing: tree.missing,
        has_error: false,
        start_byte: 0,
        end_byte: 0,
        start_row: 0,
        end_row: 0,
        depth,
    });
    let (mut start, mut end) = (*at, *at);
    if let Some(text) = &tree.text {
        start = *at + src[*at..].find(text.as_str()).expect("leaf in source");
        end = start + text.len();
        *at = end;
    }
    let mut has_error = tree.error || tree.missing;
    for (i, kid) in tree.kids.iter().enumerate() {
        let (s, e, bad) = lay(kid, src, at, depth + 1, out);
        if i == 0 {
            start = s;
        }
        end = e;
        has_error = has_error || bad;
    }
    if depth == 0 {
        start = 0;
        end = src.len();
    }
    out[slot].start_byte = start;
    out[slot].end_byte = end;
    out[slot].start_row = src[..start].matches('\n').count();
    out[slot].end_row = src[..end].matches('\n').count();
    out[slot].has_error = has_error;
    (start, end, has_error)
}

fn document(src: &str, kids: Vec<Cst>) -> Document {
    let mut nodes: Vec<Node> = Vec::new();
    let mut at: usize = 0;
    lay(&node("source_file", kids), src, &mut at, 0, &mut nodes);
    Document::from_nodes(src.to_string(), nodes).expect("a tree over the text")
}

fn id(name: &str) -> Cst {
    leaf("identifier", name)
}

fn num(text: &str) -> Cst {
    leaf("integer", text)
}

fn string(text: &str) -> Cst {
    leaf("string", text)
}

fn comment(text: &str) -> Cst {
    leaf("comment", text)
}

fn version() -> Cst {
    comment("//@version=6")
}

/// `a.b.c` as nested member accesses.
fn dotted(name: &str) -> Cst {
    match name.rsplit_once('.') {
        Some((object, member)) => node(
            "attribute",
            vec![
                under("object", dotted(object)),
                tok("."),
                under("attribute", id(member)),
            ],
        ),
        None => id(name),
    }
}

fn call(name: &str, args: Vec<Cst>) -> Cst {
    let mut list = vec![tok("(")];
    for (i, arg) in args.into_iter().enumerate() {
        if i > 0 {
            list.push(tok(","));
        }
        list.push(arg);
    }
    list.push(tok(")"));
    node(
        "call",
        vec![
            under("function", dotted(name)),
            under("arguments", node("argument_list", list)),
        ],
    )
}

fn keyword(key: &str, value: Cst) -> Cst {
    node(
        "keyword_argument",
        vec![under("key", id(key)), tok("="), under("value", value)],
    )
}

fn simple(tree: Cst) -> Cst {
    node("simple_statement", vec![tree])
}

/// A call as a statement of its own.
fn run(name: &str, args: Vec<Cst>) -> Cst {
    simple(call(name, args))
}

fn define(name: &str, value: Cst) -> Cst {
    simple(node(
        "variable_definition",
        vec![under("variable", id(name)), tok("="), under("initial_value", value)],
    ))
}

fn reassign(name: &str, operator: &str, value: Cst) -> Cst {
    simple(node(
        "reassignment",
        vec![
            under("variable", id(name)),
            under("operator", tok(operator)),
            under("value", value),
        ],
    ))
}

fn binary(left: Cst, operator: &str, right: Cst) -> Cst {
    node("math_operation", vec![left, tok(operator), right])
}

fn compare(left: &str, operator: &str, right: &str) -> Cst {
    node("comparison_operation", vec![id(left), tok(operator), id(right)])
}

fn block(kids: Vec<Cst>) -> Cst {
    node("block", kids)
}

fn branch(condition: Cst, body: Vec<Cst>) -> Cst {
    node(
        "if_statement",
        vec![
            tok("if"),
            under("condition", condition),
            under("consequence", block(body)),
        ],
    )
}

/// One parameter: its qualifier, type, name and default.
fn param(qualifier: &str, ty: &str, name: &str, default: &str) -> Vec<Cst> {
    let mut out: Vec<Cst> = Vec::new();
    if !qualifier.is_empty() {
        out.push(under("qualifier", leaf("type_qualifier", qualifier)));
    }
    if !ty.is_empty() {
        out.push(under("type", leaf("base_type", ty)));
    }
    out.push(under("argument", id(name)));
    if !default.is_empty() {
        out.push(tok("="));
        out.push(under("default_value", leaf("float", default)));
    }
    out
}

/// A function declaration: its leading tokens, the field and text of its name,
/// its parameters, its body.
fn declare(lead: &[&str], field: &str, name: &str, params: Vec<Vec<Cst>>, body: Cst) -> Cst {
    let mut kids: Vec<Cst> = lead.iter().map(|t| tok(t)).collect();
    kids.push(under(field, id(name)));
    kids.push(tok("("));
    for (i, param) in params.into_iter().enumerate() {
        if i > 0 {
            kids.push(tok(","));
        }
        kids.extend(param);
    }
    kids.push(tok(")"));
    kids.push(tok("=>"));
    kids.push(under("body", block(vec![body])));
    node("function_declaration_statement", kids)
}

fn plain(names: &[&str]) -> Vec<Vec<Cst>> {
    names.iter().map(|n| param("", "", n, "")).collect()
}

fn import(path: &str, alias: Option<&str>) -> Cst {
    let mut kids = vec![tok("import"), under("path", leaf("import_path", path))];
    if let Some(alias) = alias {
        kids.push(tok("as"));
        kids.push(under("alias", id(alias)));
    }
    node("import", kids)
}

// ---- documents ------------------------------------------------------------

#[test]
fn root_is_source_file() {
    let src = "//@version=6\nindicator(\"Test\")\nplot(close)\n";
    let doc = document(
        src,
        vec![version(), run("indicator", vec![string("\"Test\"")]), run("plot", vec![id("close")])],
    );
    assert_eq!(doc.root().kind, "source_file");
}

#[test]
fn nodes_that_are_no_tree_over_the_text_are_refused() {
    let one = |start: usize, end: usize, depth: usize| Node {
        kind: "source_file".to_string(),
        field: None,
        named: true,
        error: false,
        missing: false,
        has_error: false,
        start_byte: start,
        end_byte: end,
        start_row: 0,
        end_row: 0,
        depth,
    };
    let text = "é = 1".to_string();
    assert!(Document::from_nodes(text.clone(), Vec::new()).is_none());
    assert!(Document::from_nodes(text.clone(), vec![one(0, 6, 0)]).is_some());
    // Past the end, inside a character, backwards.
    assert!(Document::from_nodes(text.clone(), vec![one(0, 7, 0)]).is_none());
    assert!(Document::from_nodes(text.clone(), vec![one(1, 6, 0)]).is_none());
    assert!(Document::from_nodes(text.clone(), vec![one(3, 2, 0)]).is_none());
    // A root below nothing, a second root, a level left out.
    assert!(Document::from_nodes(text.clone(), vec![one(0, 6, 1)]).is_none());
    assert!(Document::from_nodes(text.clone(), vec![one(0, 6, 0), one(0, 6, 0)]).is_none());
    assert!(Document::from_nodes(text.clone(), vec![one(0, 6, 0), one(0, 6, 2)]).is_none());
    assert!(Document::from_nodes(text.clone(), vec![one(0, 6, 0), one(0, 6, 1)]).is_some());
    // Two children, in the order of the text and against it.
    let ordered = vec![one(0, 6, 0), one(0, 2, 1), one(3, 4, 1)];
    assert!(Document::from_nodes(text.clone(), ordered).is_some());
    let swapped = vec![one(0, 6, 0), one(3, 4, 1), one(0, 2, 1)];
    assert!(Document::from_nodes(text.clone(), swapped).is_none());
    // Children that overlap, and a node after a subtree that reaches into it.
    let overlapping = vec![one(0, 6, 0), one(0, 4, 1), one(3, 6, 1)];
    assert!(Document::from_nodes(text.clone(), overlapping).is_none());
    let reaching = vec![one(0, 6, 0), one(0, 4, 1), one(0, 2, 2), one(2, 6, 1)];
    assert!(Document::from_nodes(text, reaching).is_none());
}

// ---- symbols --------------------------------------------------------------

const SRC: &str = "//@version=6\nlen = 14\nf(a, b) =>\n    a + b\nz = f(len, 2)\n";

fn doc() -> Document {
    document(
        SRC,
        vec![
            version(),
            define("len", num("14")),
            declare(&[], "function", "f", plain(&["a", "b"]), binary(id("a"), "+", id("b"))),
            define("z", call("f", vec![id("len"), num("2")])),
        ],
    )
}

#[test]
fn finds_definitions() {
    let defs = definitions(&doc());
    let names: Vec<_> = defs.iter().map(|d| d.name.as_str()).collect();
    assert!(names.contains(&"len"));
    assert!(names.contains(&"f"));
    assert!(names.contains(&"a")); // parameter
    assert!(names.contains(&"z"));
    assert!(defs.iter().any(|d| d.name == "f" && d.kind == SymbolKind::Function));
    assert!(defs.iter().any(|d| d.name == "a" && d.kind == SymbolKind::Parameter));
    assert_eq!(names, vec!["len", "f", "a", "b", "z"]);
}

#[test]
fn references_to_len() {
    let d = doc();
    // "len" appears at its definition and inside f(len, 2)
    let refs = references(&d, "len");
    assert_eq!(refs.len(), 2, "len defined once + used once");
}

#[test]
fn collects_tuple_and_for_in_vars() {
    let d = document(
        "//@version=6\n[a, b] = ta.macd(close, 12, 26)\nfor item in array.new_float()\n    plot(item)\n",
        vec![
            version(),
            simple(node(
                "tuple_declaration",
                vec![
                    tok("["),
                    under("variables", id("a")),
                    tok(","),
                    under("variables", id("b")),
                    tok("]"),
                    tok("="),
                    call("ta.macd", vec![id("close"), num("12"), num("26")]),
                ],
            )),
            node(
                "for_in_statement",
                vec![
                    tok("for"),
                    under("array_element", id("item")),
                    tok("in"),
                    call("array.new_float", vec![]),
                    under("body", block(vec![run("plot", vec![id("item")])])),
                ],
            ),
        ],
    );
    let names: Vec<_> = definitions(&d).into_iter().map(|x| x.name).collect();
    assert!(names.contains(&"a".to_string()));
    assert!(names.contains(&"b".to_string()));
    assert!(names.contains(&"item".to_string()));
}

#[test]
fn identifier_under_cursor() {
    let d = doc();
    // byte of the 'f' in "z = f(len, 2)" — find it
    let byte = SRC.rfind("f(len").unwrap();
    let (name, _, _) = identifier_at(&d, byte).unwrap();
    assert_eq!(name, "f");
}

#[test]
fn definitions_of_every_kind() {
    let src = "f() =>\n    1\nmethod g() =>\n    1\nfor i = 0 to 2\n    i\ntype P\nenum E\nimport A/B/1 as m\nx = switch\n";
    let d = document(
        src,
        vec![
            declare(&[], "function", "f", vec![], num("1")),
            declare(&["method"], "method", "g", vec![], num("1")),
            node(
                "for_statement",
                vec![
                    tok("for"),
                    under("counter", id("i")),
                    tok("="),
                    num("0"),
                    tok("to"),
                    num("2"),
                    under("body", block(vec![id("i")])),
                ],
            ),
            node("type_definition_statement", vec![tok("type"), under("name", id("P"))]),
            node("enum_declaration", vec![tok("enum"), under("name", id("E"))]),
            import("A/B/1", Some("m")),
            node(
                "variable_definition_statement",
                vec![under("variable", id("x")), tok("="), tok("switch")],
            ),
        ],
    );
    let found: Vec<(String, SymbolKind)> =
        definitions(&d).into_iter().map(|s| (s.name, s.kind)).collect();
    assert_eq!(
        found,
        vec![
            ("f".to_string(), SymbolKind::Function),
            ("g".to_string(), SymbolKind::Function),
            ("i".to_string(), SymbolKind::Variable),
            ("P".to_string(), SymbolKind::Type),
            ("E".to_string(), SymbolKind::Enum),
            ("m".to_string(), SymbolKind::Variable),
            ("x".to_string(), SymbolKind::Variable),
        ]
    );
}

/// A function with a variable of its own, and a name of every other kind of scope.
fn nested() -> (&'static str, Document) {
    let src = "//@version=6\nf(x) =>\n    a = x + 1\n    a * 2\nplot(f(close))\nif close > open\n    b = 1\nfor i = 0 to 2\n    c = i\n    for j = 0 to 2\n        j\nwhile true\n    d = 1\ny = switch\n    e = 1\n";
    let counted = |name: &str, body: Vec<Cst>| {
        node(
            "for_statement",
            vec![
                tok("for"),
                under("counter", id(name)),
                tok("="),
                num("0"),
                tok("to"),
                num("2"),
                under("body", block(body)),
            ],
        )
    };
    let local = node(
        "function_declaration_statement",
        vec![
            under("function", id("f")),
            tok("("),
            under("argument", id("x")),
            tok(")"),
            tok("=>"),
            under(
                "body",
                block(vec![
                    define("a", binary(id("x"), "+", num("1"))),
                    simple(binary(id("a"), "*", num("2"))),
                ]),
            ),
        ],
    );
    let doc = document(
        src,
        vec![
            version(),
            local,
            run("plot", vec![call("f", vec![id("close")])]),
            branch(compare("close", ">", "open"), vec![define("b", num("1"))]),
            counted("i", vec![define("c", id("i")), counted("j", vec![id("j")])]),
            node(
                "while_statement",
                vec![
                    tok("while"),
                    under("condition", leaf("true", "true")),
                    under("body", block(vec![define("d", num("1"))])),
                ],
            ),
            node(
                "variable_definition_statement",
                vec![
                    under("variable", id("y")),
                    tok("="),
                    under(
                        "initial_structure",
                        node("switch_statement", vec![tok("switch"), define("e", num("1"))]),
                    ),
                ],
            ),
        ],
    );
    (src, doc)
}

#[test]
fn only_top_level_names_and_parameters_are_defined() {
    let (_, d) = nested();
    let found: Vec<(String, SymbolKind)> =
        definitions(&d).into_iter().map(|s| (s.name, s.kind)).collect();
    assert_eq!(
        found,
        vec![
            ("f".to_string(), SymbolKind::Function),
            ("x".to_string(), SymbolKind::Parameter),
            ("i".to_string(), SymbolKind::Variable),
            ("y".to_string(), SymbolKind::Variable),
        ]
    );
}

#[test]
fn only_top_level_variables_are_reported_as_unused() {
    let (_, d) = nested();
    let unused: Vec<String> = analyze(&d)
        .into_iter()
        .filter(|x| x.code == "unused-variable")
        .map(|x| x.message)
        .collect();
    assert_eq!(unused, vec!["Variable `y` is declared but never used".to_string()]);
}

#[test]
fn what_stands_in_a_scope_is_nested() {
    let (_, d) = nested();
    let nested_names: Vec<&str> = (0..d.tree().len())
        .filter(|i| d.tree()[*i].kind == "variable_definition" && is_nested_node(&d, *i))
        .map(|i| d.node_text(i + 1))
        .collect();
    assert_eq!(nested_names, vec!["a", "b", "c", "d", "e"]);
    assert!(!is_nested_node(&d, 0));
}

#[test]
fn definitions_and_references_come_in_source_order() {
    let (_, d) = nested();
    let starts: Vec<usize> = definitions(&d).iter().map(|s| s.start_byte).collect();
    assert!(starts.windows(2).all(|w| w[0] < w[1]));
    let spans = references(&d, "a");
    assert_eq!(spans.len(), 2);
    assert!(spans.windows(2).all(|w| w[0].0 < w[1].0));
}

#[test]
fn members_are_no_references() {
    let src = "len = 1\nx = foo.len\ny = len.foo\n";
    let d = document(
        src,
        vec![
            define("len", num("1")),
            define("x", dotted("foo.len")),
            define("y", dotted("len.foo")),
        ],
    );
    assert_eq!(references(&d, "len"), vec![(0, 3), (24, 27)]);
    for (start, end) in references(&d, "len") {
        assert_eq!(&src[start..end], "len");
    }
}

#[test]
fn definitions_are_among_their_references() {
    let d = doc();
    for def in definitions(&d) {
        assert_eq!(&SRC[def.start_byte..def.end_byte], def.name);
        assert!(references(&d, &def.name).contains(&(def.start_byte, def.end_byte)));
    }
}

#[test]
fn no_identifier_on_other_nodes() {
    let d = doc();
    assert!(identifier_at(&d, SRC.find("14").unwrap()).is_none());
    assert!(identifier_at(&d, SRC.len() + 9).is_none());
}

// ---- imports --------------------------------------------------------------

#[test]
fn versioned_import_with_alias_and_source() {
    let src = "//@version=6\n/// @source ./libs/my-lib.pine\nimport User/MyLib/1 as myLib\n";
    let t = import_table(&document(
        src,
        vec![
            version(),
            comment("/// @source ./libs/my-lib.pine"),
            import("User/MyLib/1", Some("myLib")),
        ],
    ));
    assert_eq!(t.len(), 1);
    let entry = &t.entries()[0];
    assert_eq!(entry.alias.as_deref(), Some("myLib"));
    assert_eq!(entry.user, "User");
    assert_eq!(entry.lib, "MyLib");
    assert_eq!(entry.version, "1");
    assert_eq!(entry.source.as_deref(), Some("./libs/my-lib.pine"));
    assert_eq!(entry.line, 2);
    assert_eq!(&src[entry.start_byte..entry.end_byte], "import User/MyLib/1 as myLib");
}

#[test]
fn import_with_alias_but_no_directive() {
    let src = "//@version=6\nimport User/MyLib/1 as myLib\n";
    let t = import_table(&document(src, vec![version(), import("User/MyLib/1", Some("myLib"))]));
    assert_eq!(t.len(), 1);
    let entry = &t.entries()[0];
    assert_eq!(entry.alias.as_deref(), Some("myLib"));
    assert_eq!(entry.source, None);
}

#[test]
fn import_with_no_alias() {
    let src = "//@version=6\nimport TV/Strategy/2\n";
    let t = import_table(&document(src, vec![version(), import("TV/Strategy/2", None)]));
    assert_eq!(t.len(), 1);
    let entry = &t.entries()[0];
    assert_eq!(entry.alias, None);
    assert_eq!(entry.user, "TV");
    assert_eq!(entry.lib, "Strategy");
    assert_eq!(entry.version, "2");
    assert_eq!(entry.source, None);
    // Effective namespace falls back to the lib name.
    assert_eq!(entry.effective_namespace(), "Strategy");
}

#[test]
fn directive_not_on_previous_line_does_not_associate() {
    // Blank line between the directive and the import => strict rule rejects.
    let src = "//@version=6\n/// @source ./libs/my-lib.pine\n\nimport User/MyLib/1 as myLib\n";
    let t = import_table(&document(
        src,
        vec![
            version(),
            comment("/// @source ./libs/my-lib.pine"),
            import("User/MyLib/1", Some("myLib")),
        ],
    ));
    assert_eq!(t.len(), 1);
    assert_eq!(t.entries()[0].source, None);
}

#[test]
fn unrelated_line_between_directive_and_import() {
    let src = "//@version=6\n/// @source ./libs/my-lib.pine\nx = 1\nimport User/MyLib/1 as myLib\n";
    let t = import_table(&document(
        src,
        vec![
            version(),
            comment("/// @source ./libs/my-lib.pine"),
            define("x", num("1")),
            import("User/MyLib/1", Some("myLib")),
        ],
    ));
    assert_eq!(t.len(), 1);
    assert_eq!(t.entries()[0].source, None);
}

#[test]
fn multiple_imports_each_correctly_associated() {
    let src = "//@version=6\n/// @source ./libs/a.pine\nimport User/LibA/1 as a\n/// @source ./libs/b.pine\nimport User/LibB/2 as b\n";
    let t = import_table(&document(
        src,
        vec![
            version(),
            comment("/// @source ./libs/a.pine"),
            import("User/LibA/1", Some("a")),
            comment("/// @source ./libs/b.pine"),
            import("User/LibB/2", Some("b")),
        ],
    ));
    assert_eq!(t.len(), 2);
    let a = t.by_alias("a").expect("a");
    let b = t.by_alias("b").expect("b");
    assert_eq!(a.source.as_deref(), Some("./libs/a.pine"));
    assert_eq!(a.lib, "LibA");
    assert_eq!(b.source.as_deref(), Some("./libs/b.pine"));
    assert_eq!(b.lib, "LibB");
    // No cross-association.
    assert_ne!(a.source, b.source);
}

#[test]
fn malformed_import_missing_version_produces_no_entries() {
    // `import User/Lib` (no version) yields an ERROR node and no import node.
    let src = "//@version=6\nimport User/Lib\n";
    let t = import_table(&document(
        src,
        vec![version(), broken_up(vec![tok("import"), id("User"), tok("/"), id("Lib")])],
    ));
    assert!(t.is_empty(), "must not fabricate an entry from an ERROR node");
}

#[test]
fn dangling_as_produces_no_entries() {
    let src = "//@version=6\nimport User/Lib/1 as\n";
    let t = import_table(&document(
        src,
        vec![version(), broken_up(vec![tok("import"), leaf("import_path", "User/Lib/1"), tok("as")])],
    ));
    assert!(t.is_empty(), "dangling `as` must not panic or fabricate");
}

#[test]
fn import_on_first_line_no_underflow() {
    // Import on row 0 — there is no possible previous line for a directive.
    let src = "import User/MyLib/1 as myLib\n";
    let t = import_table(&document(src, vec![import("User/MyLib/1", Some("myLib"))]));
    assert_eq!(t.len(), 1);
    for entry in t.entries() {
        assert_eq!(entry.line, 0);
        assert_eq!(entry.source, None);
    }
}

#[test]
fn by_alias_lookup() {
    let src = "//@version=6\nimport User/MyLib/1 as myLib\nimport TV/Strategy/2\n";
    let t = import_table(&document(
        src,
        vec![version(), import("User/MyLib/1", Some("myLib")), import("TV/Strategy/2", None)],
    ));
    assert!(t.by_alias("myLib").is_some());
    assert!(t.by_alias("nope").is_none());
    // An aliasless import is not matched by its lib name.
    assert!(t.by_alias("Strategy").is_none());
}

#[test]
fn plain_comments_are_not_source_directives() {
    // A plain `//` comment, the `//@version=6` annotation, and a `///` doc
    // comment that isn't `@source` must all be ignored.
    let src = "//@version=6\n// @source ./not-a-directive.pine\n/// just a doc comment\nimport User/MyLib/1 as myLib\n";
    let t = import_table(&document(
        src,
        vec![
            version(),
            comment("// @source ./not-a-directive.pine"),
            comment("/// just a doc comment"),
            import("User/MyLib/1", Some("myLib")),
        ],
    ));
    assert_eq!(t.len(), 1);
    assert_eq!(t.entries()[0].source, None);
}

#[test]
fn empty_document_has_no_imports() {
    let src = "//@version=6\nindicator(\"Test\")\nplot(close)\n";
    let t = import_table(&document(
        src,
        vec![version(), run("indicator", vec![string("\"Test\"")]), run("plot", vec![id("close")])],
    ));
    assert!(t.is_empty());
    assert!(ImportTable::default().is_empty());
    assert!(ResolvedImports::default().is_empty());
}

#[test]
fn directive_with_leading_and_trailing_whitespace_is_trimmed() {
    // Leading indentation + trailing whitespace (and a CR) must be trimmed.
    let src = "//@version=6\n   ///   @source   ./libs/my-lib.pine   \r\nimport User/MyLib/1 as myLib\n";
    let t = import_table(&document(
        src,
        vec![
            version(),
            comment("///   @source   ./libs/my-lib.pine   \r"),
            import("User/MyLib/1", Some("myLib")),
        ],
    ));
    assert_eq!(t.len(), 1);
    assert_eq!(t.entries()[0].source.as_deref(), Some("./libs/my-lib.pine"));
}

#[test]
fn at_source_without_path_is_rejected() {
    // `/// @source` with no path must not produce an empty source string.
    let src = "//@version=6\n/// @source\nimport User/MyLib/1 as myLib\n";
    let t = import_table(&document(
        src,
        vec![version(), comment("/// @source"), import("User/MyLib/1", Some("myLib"))],
    ));
    assert_eq!(t.len(), 1);
    assert_eq!(t.entries()[0].source, None);
}

#[test]
fn source_directives() {
    let path = |s: &str| parse_source_directive(s);
    assert_eq!(path("/// @source a b.pine"), Some("a b.pine".to_string()));
    assert_eq!(path("///@source\tx"), Some("x".to_string()));
    assert_eq!(path("\u{2003}/// @source\u{3000}x\u{a0}"), Some("x".to_string()));
    assert_eq!(path("/// @sourcex"), None);
    assert_eq!(path("//  @source x"), None);
    assert_eq!(path("/// @source   "), None);
    assert_eq!(path("//@version=6"), None);
    assert_eq!(path(""), None);
}

#[test]
fn import_paths_have_three_segments() {
    for bad in ["A/B", "A//1", "A/B/", "/B/1", "A/B/1/2"] {
        let src = format!("import {bad}\n");
        assert!(import_table(&document(&src, vec![import(bad, None)])).is_empty(), "{bad}");
    }
}

// ---- exports --------------------------------------------------------------

#[test]
fn exported_function_with_typed_and_defaulted_params() {
    let src = "//@version=6\nexport f(int a, float b = 1.0) =>\n    a + b\n";
    let syms = exported_symbols(&document(
        src,
        vec![
            version(),
            declare(
                &["export"],
                "function",
                "f",
                vec![param("", "int", "a", ""), param("", "float", "b", "1.0")],
                binary(id("a"), "+", id("b")),
            ),
        ],
    ));
    assert_eq!(syms.len(), 1);
    let f = &syms[0];
    assert_eq!(f.name, "f");
    assert_eq!(f.kind, ExportKind::Function);
    assert_eq!(
        f.params,
        vec![
            ExportedParam {
                name: "a".to_string(),
                declared_type: Some("int".to_string()),
                has_default: false,
            },
            ExportedParam {
                name: "b".to_string(),
                declared_type: Some("float".to_string()),
                has_default: true,
            },
        ]
    );
}

#[test]
fn non_exported_function_is_not_collected() {
    let src = "//@version=6\ng(c) =>\n    c * 2\n";
    let syms = exported_symbols(&document(
        src,
        vec![
            version(),
            declare(&[], "function", "g", plain(&["c"]), binary(id("c"), "*", num("2"))),
        ],
    ));
    assert!(syms.is_empty(), "a function without the `export` token must not be collected");
}

#[test]
fn exported_method_with_qualified_types() {
    let src = "//@version=6\nexport method scale(series float x, simple int n) =>\n    x * n\n";
    let syms = exported_symbols(&document(
        src,
        vec![
            version(),
            declare(
                &["export", "method"],
                "method",
                "scale",
                vec![param("series", "float", "x", ""), param("simple", "int", "n", "")],
                binary(id("x"), "*", id("n")),
            ),
        ],
    ));
    assert_eq!(syms.len(), 1);
    let m = &syms[0];
    assert_eq!(m.name, "scale");
    assert_eq!(m.kind, ExportKind::Method);
    // Qualifier (`series`/`simple`) must not break type/name extraction.
    assert_eq!(m.params.len(), 2);
    assert_eq!(m.params[0].name, "x");
    assert_eq!(m.params[0].declared_type.as_deref(), Some("float"));
    assert_eq!(m.params[1].name, "n");
    assert_eq!(m.params[1].declared_type.as_deref(), Some("int"));
}

#[test]
fn typeless_param_is_not_index_zipped_to_wrong_type() {
    // `f(int a, c)`: 2 args, 1 type. Index-zipping would give `c` the type
    // `int`; the ordered walk must instead leave `c` typeless.
    let src = "//@version=6\nexport f(int a, c) =>\n    a\n";
    let syms = exported_symbols(&document(
        src,
        vec![
            version(),
            declare(
                &["export"],
                "function",
                "f",
                vec![param("", "int", "a", ""), param("", "", "c", "")],
                id("a"),
            ),
        ],
    ));
    assert_eq!(syms.len(), 1);
    let params = &syms[0].params;
    assert_eq!(params.len(), 2);
    assert_eq!(params[0].name, "a");
    assert_eq!(params[0].declared_type.as_deref(), Some("int"));
    assert_eq!(params[1].name, "c");
    assert_eq!(
        params[1].declared_type, None,
        "typeless param must not inherit a sibling's type via index-zip"
    );
}

fn type_decl(exported: bool, name: &str, fields: &[(&str, &str)]) -> Cst {
    let mut kids: Vec<Cst> = Vec::new();
    if exported {
        kids.push(tok("export"));
    }
    kids.push(tok("type"));
    kids.push(under("name", id(name)));
    for (ty, field) in fields {
        kids.push(leaf("base_type", ty));
        kids.push(id(field));
    }
    node("type_definition_statement", kids)
}

fn enum_decl(exported: bool, name: &str, members: &[&str]) -> Cst {
    let mut kids: Vec<Cst> = Vec::new();
    if exported {
        kids.push(tok("export"));
    }
    kids.push(tok("enum"));
    kids.push(under("name", id(name)));
    for member in members {
        kids.push(id(member));
    }
    node("enum_declaration", kids)
}

#[test]
fn exported_type_and_enum_collected_with_empty_params() {
    let src = "//@version=6\nexport type Point\n    float x\n    float y\nexport enum Color\n    red\n    green\n";
    let syms = exported_symbols(&document(
        src,
        vec![
            version(),
            type_decl(true, "Point", &[("float", "x"), ("float", "y")]),
            enum_decl(true, "Color", &["red", "green"]),
        ],
    ));
    assert_eq!(syms.len(), 2);
    let point = syms.iter().find(|s| s.name == "Point").expect("Point");
    assert_eq!(point.kind, ExportKind::Type);
    assert!(point.params.is_empty());
    let color = syms.iter().find(|s| s.name == "Color").expect("Color");
    assert_eq!(color.kind, ExportKind::Enum);
    assert!(color.params.is_empty());
}

#[test]
fn non_exported_type_and_enum_excluded() {
    let src = "//@version=6\ntype Internal\n    int n\nenum Hidden\n    a\n    b\n";
    let syms = exported_symbols(&document(
        src,
        vec![
            version(),
            type_decl(false, "Internal", &[("int", "n")]),
            enum_decl(false, "Hidden", &["a", "b"]),
        ],
    ));
    assert!(syms.is_empty(), "type/enum without `export` must be excluded");
}

#[test]
fn zero_export_library_returns_empty_vec() {
    let src = "//@version=6\nindicator(\"x\")\nf(a) =>\n    a\nplot(close)\n";
    let syms = exported_symbols(&document(
        src,
        vec![
            version(),
            run("indicator", vec![string("\"x\"")]),
            declare(&[], "function", "f", plain(&["a"]), id("a")),
            run("plot", vec![id("close")]),
        ],
    ));
    assert!(syms.is_empty(), "no exports is not an error");
}

#[test]
fn exported_function_name_span_points_at_the_name() {
    // The name byte span must slice exactly the function name out of the
    // SAME source the symbols were extracted from.
    let lib_src = "//@version=6\nexport add(int a, float b = 1.0) =>\n    a + b\n";
    let syms = exported_symbols(&document(
        lib_src,
        vec![
            version(),
            declare(
                &["export"],
                "function",
                "add",
                vec![param("", "int", "a", ""), param("", "float", "b", "1.0")],
                binary(id("a"), "+", id("b")),
            ),
        ],
    ));
    assert_eq!(syms.len(), 1);
    let add = &syms[0];
    assert_eq!(
        &lib_src[add.name_byte_start..add.name_byte_end],
        "add",
        "fn name span must slice the name from the lib source"
    );
}

#[test]
fn exported_method_name_span_points_at_the_name() {
    let lib_src = "//@version=6\nexport method scale(series float x) =>\n    x\n";
    let syms = exported_symbols(&document(
        lib_src,
        vec![
            version(),
            declare(
                &["export", "method"],
                "method",
                "scale",
                vec![param("series", "float", "x", "")],
                id("x"),
            ),
        ],
    ));
    assert_eq!(syms.len(), 1);
    let scale = &syms[0];
    assert_eq!(scale.kind, ExportKind::Method);
    assert_eq!(&lib_src[scale.name_byte_start..scale.name_byte_end], "scale");
}

#[test]
fn exported_type_and_enum_name_spans_point_at_the_names() {
    let lib_src = "//@version=6\nexport type Point\n    float x\nexport enum Color\n    red\n";
    let syms = exported_symbols(&document(
        lib_src,
        vec![
            version(),
            type_decl(true, "Point", &[("float", "x")]),
            enum_decl(true, "Color", &["red"]),
        ],
    ));
    let point = syms.iter().find(|s| s.name == "Point").expect("Point");
    assert_eq!(point.kind, ExportKind::Type);
    assert_eq!(&lib_src[point.name_byte_start..point.name_byte_end], "Point");
    let color = syms.iter().find(|s| s.name == "Color").expect("Color");
    assert_eq!(color.kind, ExportKind::Enum);
    assert_eq!(&lib_src[color.name_byte_start..color.name_byte_end], "Color");
}

// ---- resolution -----------------------------------------------------------

fn with_source(src: &str, source: &str, path: &str, alias: &str) -> ImportTable {
    import_table(&document(
        src,
        vec![version(), comment(&format!("/// @source {source}")), import(path, Some(alias))],
    ))
}

fn parts(path: &str) -> Vec<Vec<u8>> {
    let mut out = vec![b"/".to_vec()];
    out.extend(path.split('/').filter(|p| !p.is_empty()).map(|p| p.as_bytes().to_vec()));
    out
}

/// What the file system says of `target` under `base`.
fn probe(absolute: bool, base: Option<&str>, target: Option<&str>) -> PathProbe {
    PathProbe {
        absolute,
        base: base.map(parts),
        target: target.map(|t| (PathBuf::from(t), parts(t))),
    }
}

fn math_utils() -> Document {
    document(
        "//@version=6\nlibrary(\"MathUtils\")\n\nexport add(int a, float b = 1.0) =>\n    a + b\nexport clamp(float x, float lo, float hi) =>\n    x\nhelper(x) =>\n    x\n",
        vec![
            version(),
            run("library", vec![string("\"MathUtils\"")]),
            declare(
                &["export"],
                "function",
                "add",
                vec![param("", "int", "a", ""), param("", "float", "b", "1.0")],
                binary(id("a"), "+", id("b")),
            ),
            declare(
                &["export"],
                "function",
                "clamp",
                vec![
                    param("", "float", "x", ""),
                    param("", "float", "lo", ""),
                    param("", "float", "hi", ""),
                ],
                id("x"),
            ),
            declare(&[], "function", "helper", plain(&["x"]), id("x")),
        ],
    )
}

fn loaded(path: &str, doc: Document) -> LibrarySource {
    LibrarySource::Loaded { path: PathBuf::from(path), doc }
}

#[test]
fn published_import_without_source_is_unresolved_not_error() {
    // No `/// @source` directive: the common published-import case.
    let src = "//@version=6\nimport User/MyLib/1 as myLib\n";
    let table = import_table(&document(src, vec![version(), import("User/MyLib/1", Some("myLib"))]));
    let resolved = resolve_imports(&table, vec![LibrarySource::NotFound]);

    assert_eq!(resolved.len(), 1);
    let my_lib = resolved.by_alias("myLib").expect("myLib");
    assert!(
        matches!(my_lib.resolution, ImportResolution::Unresolved),
        "no @source must resolve to Unresolved (not an error), got {:?}",
        my_lib.resolution
    );
}

#[test]
fn local_source_resolves_to_expected_exported_symbols() {
    let src = "//@version=6\n/// @source math_utils.pine\nimport User/MathUtils/1 as mu\n";
    let table = with_source(src, "math_utils.pine", "User/MathUtils/1", "mu");
    let resolved = resolve_imports(&table, vec![loaded("/libs/math_utils.pine", math_utils())]);

    let mu = resolved.by_alias("mu").expect("mu");
    let ImportResolution::Resolved { symbols, path } = &mu.resolution else {
        panic!("expected Resolved, got {:?}", mu.resolution);
    };

    // The resolved path is the canonical absolute lib file.
    assert!(path.is_absolute(), "resolved path must be absolute: {path:?}");
    assert!(
        path.ends_with("math_utils.pine"),
        "resolved path must point at the lib file: {path:?}"
    );

    // Only the two exported functions; `helper` (non-exported) is excluded.
    let names: Vec<&str> = symbols.iter().map(|s| s.name.as_str()).collect();
    assert_eq!(names, vec!["add", "clamp"]);

    let add = symbols.iter().find(|s| s.name == "add").expect("add");
    assert_eq!(add.kind, ExportKind::Function);
    assert_eq!(add.params.len(), 2);
    assert_eq!(add.params[0].name, "a");
    assert_eq!(add.params[0].declared_type.as_deref(), Some("int"));
    assert!(!add.params[0].has_default);
    assert_eq!(add.params[1].name, "b");
    assert_eq!(add.params[1].declared_type.as_deref(), Some("float"));
    assert!(add.params[1].has_default);
}

#[test]
fn local_source_resolves_method_and_types() {
    let src = "//@version=6\n/// @source with_method.pine\nimport User/WithMethod/1 as wm\n/// @source types_and_enum.pine\nimport User/TypesEnum/1 as te\n";
    let table = import_table(&document(
        src,
        vec![
            version(),
            comment("/// @source with_method.pine"),
            import("User/WithMethod/1", Some("wm")),
            comment("/// @source types_and_enum.pine"),
            import("User/TypesEnum/1", Some("te")),
        ],
    ));
    let with_method = document(
        "//@version=6\nexport method scale(series float x) =>\n    x\n",
        vec![
            version(),
            declare(
                &["export", "method"],
                "method",
                "scale",
                vec![param("series", "float", "x", "")],
                id("x"),
            ),
        ],
    );
    let types_and_enum = document(
        "//@version=6\nexport type Point\n    float x\ntype Internal\n    int n\nexport enum Color\n    red\nenum Hidden\n    a\n",
        vec![
            version(),
            type_decl(true, "Point", &[("float", "x")]),
            type_decl(false, "Internal", &[("int", "n")]),
            enum_decl(true, "Color", &["red"]),
            enum_decl(false, "Hidden", &["a"]),
        ],
    );
    let resolved = resolve_imports(
        &table,
        vec![
            loaded("/libs/with_method.pine", with_method),
            loaded("/libs/types_and_enum.pine", types_and_enum),
        ],
    );

    let wm = resolved.by_alias("wm").expect("wm");
    let ImportResolution::Resolved { symbols: wm_syms, .. } = &wm.resolution else {
        panic!("expected Resolved for wm, got {:?}", wm.resolution);
    };
    assert_eq!(wm_syms.len(), 1);
    assert_eq!(wm_syms[0].name, "scale");
    assert_eq!(wm_syms[0].kind, ExportKind::Method);

    let te = resolved.by_alias("te").expect("te");
    let ImportResolution::Resolved { symbols: te_syms, .. } = &te.resolution else {
        panic!("expected Resolved for te, got {:?}", te.resolution);
    };
    // Exported Point (Type) + Color (Enum); Internal/Hidden excluded.
    let names: Vec<&str> = te_syms.iter().map(|s| s.name.as_str()).collect();
    assert_eq!(names, vec!["Point", "Color"]);
    assert_eq!(te_syms[0].kind, ExportKind::Type);
    assert_eq!(te_syms[1].kind, ExportKind::Enum);
}

/// What is made of the library that a probe leads to. Nothing is read where the
/// probe leads nowhere.
fn found_by(probe: PathProbe) -> LibrarySource {
    let target = safe_local_path(probe);
    let contents = target.as_ref().map(|_| "[]".to_string());
    load_library(&tree_sitter_json::LANGUAGE.into(), target, contents)
}

#[test]
fn exports_are_those_of_the_top_level_in_source_order() {
    let inner = declare(&["export"], "function", "inner", vec![], num("1"));
    let d = document(
        "if a > b\n    export inner() =>\n        1\nexport g() =>\n    1\nexport f() =>\n    1\n",
        vec![
            branch(compare("a", ">", "b"), vec![inner]),
            declare(&["export"], "function", "g", vec![], num("1")),
            declare(&["export"], "function", "f", vec![], num("1")),
        ],
    );
    let symbols = exported_symbols(&d);
    let names: Vec<&str> = symbols.iter().map(|s| s.name.as_str()).collect();
    assert_eq!(names, vec!["g", "f"]);
    assert!(symbols[0].name_byte_end <= symbols[1].name_byte_start);
    // Nor is what stands inside an exported type.
    let typed = document(
        "export type P\n    export enum E\n",
        vec![node(
            "type_definition_statement",
            vec![
                tok("export"),
                tok("type"),
                under("name", id("P")),
                node(
                    "enum_declaration",
                    vec![tok("export"), tok("enum"), under("name", id("E"))],
                ),
            ],
        )],
    );
    let names: Vec<String> = exported_symbols(&typed).into_iter().map(|s| s.name).collect();
    assert_eq!(names, vec!["P".to_string()]);
}

#[test]
fn missing_file_resolves_to_not_found_without_panic() {
    let src = "//@version=6\n/// @source does_not_exist.pine\nimport User/Missing/1 as m\n";
    let table = with_source(src, "does_not_exist.pine", "User/Missing/1", "m");
    let found = found_by(probe(false, Some("/libs"), None));
    let resolved = resolve_imports(&table, vec![found]);

    let m = resolved.by_alias("m").expect("m");
    assert!(
        matches!(m.resolution, ImportResolution::NotFound),
        "missing file must be NotFound, got {:?}",
        m.resolution
    );
}

#[test]
fn path_traversal_outside_base_dir_is_refused() {
    // `../../` escapes the fixtures dir; even if the target exists, the
    // canonical prefix check must refuse it -> NotFound.
    let src = "//@version=6\n/// @source ../../Cargo.toml\nimport User/Escape/1 as e\n";
    let table = with_source(src, "../../Cargo.toml", "User/Escape/1", "e");
    let found =
        found_by(probe(false, Some("/crate/tests/fixtures/libs"), Some("/crate/tests/Cargo.toml")));
    let resolved = resolve_imports(&table, vec![found]);

    let e = resolved.by_alias("e").expect("e");
    assert!(
        matches!(e.resolution, ImportResolution::NotFound),
        "path traversal must be refused, got {:?}",
        e.resolution
    );
}

#[test]
fn absolute_source_path_is_refused() {
    let src = "//@version=6\n/// @source /etc/hosts\nimport User/Abs/1 as a\n";
    let table = with_source(src, "/etc/hosts", "User/Abs/1", "a");
    let found = found_by(probe(true, Some("/"), Some("/etc/hosts")));
    let resolved = resolve_imports(&table, vec![found]);

    let a = resolved.by_alias("a").expect("a");
    assert!(
        matches!(a.resolution, ImportResolution::NotFound),
        "absolute path must be refused, got {:?}",
        a.resolution
    );
}

#[test]
fn local_paths_stay_under_the_base() {
    let inside = probe(false, Some("/libs"), Some("/libs/sub/a.pine"));
    assert_eq!(safe_local_path(inside), Some(PathBuf::from("/libs/sub/a.pine")));
    // Whole components count, not characters.
    assert!(safe_local_path(probe(false, Some("/libs"), Some("/libs2/a.pine"))).is_none());
    assert!(safe_local_path(probe(false, None, Some("/libs/a.pine"))).is_none());
}

#[test]
fn lib_with_parse_errors_still_recovers_exports() {
    let src = "//@version=6\n/// @source error_recovery.pine\nimport User/Broken/1 as b\n";
    let table = with_source(src, "error_recovery.pine", "User/Broken/1", "b");
    let broken = document(
        "//@version=6\nexport ok(int a) =>\n    a\nx = (1 +\n",
        vec![
            version(),
            declare(&["export"], "function", "ok", vec![param("", "int", "a", "")], id("a")),
            broken_up(vec![id("x"), tok("="), tok("("), num("1"), tok("+")]),
        ],
    );
    assert!(broken.has_errors());
    let resolved = resolve_imports(&table, vec![loaded("/libs/error_recovery.pine", broken)]);

    let b = resolved.by_alias("b").expect("b");
    let ImportResolution::Resolved { symbols: syms, .. } = &b.resolution else {
        panic!("a lib with ERROR nodes must still Resolve best-effort, got {:?}", b.resolution);
    };
    // The recoverable export must be present; no panic on the error node.
    assert!(
        syms.iter().any(|s| s.name == "ok"),
        "expected to recover the `ok` export from a partially-broken lib"
    );
}

#[test]
fn unparsed_library_is_reported_as_such() {
    let src = "//@version=6\n/// @source a.pine\nimport U/L/1 as l\n";
    let table = with_source(src, "a.pine", "U/L/1", "l");
    let resolved = resolve_imports(&table, vec![LibrarySource::ParseFailed]);
    assert!(!resolved.is_empty());
    assert!(matches!(resolved.entries()[0].resolution, ImportResolution::ParseFailed));
    assert!(resolved.by_alias("L").is_none());
}

#[test]
fn symbols_and_resolutions_are_copied_whole() {
    let one = ExportedSymbol {
        name: "f".to_string(),
        kind: ExportKind::Method,
        params: vec![ExportedParam {
            name: "a".to_string(),
            declared_type: Some("int".to_string()),
            has_default: true,
        }],
        name_byte_start: 3,
        name_byte_end: 4,
    };
    assert_eq!(one.clone(), one);
    let resolution = ImportResolution::Resolved { path: PathBuf::from("/l"), symbols: vec![one] };
    let ImportResolution::Resolved { path, symbols } = resolution.clone() else {
        panic!("expected Resolved");
    };
    assert_eq!(path, PathBuf::from("/l"));
    assert_eq!(symbols.len(), 1);
}

// ---- checks ---------------------------------------------------------------

fn has(diags: &[Diagnostic], code: &str) -> bool {
    diags.iter().any(|d| d.code == code)
}

#[test]
fn flags_missing_version() {
    let d = document(
        "x = 1\nplot(x)\n",
        vec![define("x", num("1")), run("plot", vec![id("x")])],
    );
    assert!(analyze(&d).iter().any(|x| x.code == "missing-version"));
    let one = &analyze(&d)[0];
    assert_eq!((one.start_byte, one.end_byte), (0, 5));
    assert_eq!(one.message, "Missing `//@version=6` directive");
    assert_eq!(one.severity, Severity::Warning);
}

#[test]
fn version_present_ok() {
    let d = document(
        "//@version=6\nx = 1\nplot(x)\n",
        vec![version(), define("x", num("1")), run("plot", vec![id("x")])],
    );
    assert!(!analyze(&d).iter().any(|x| x.code == "missing-version"));
}

#[test]
fn flags_unused_variable() {
    let d = document(
        "//@version=6\nunused = 42\nplot(close)\n",
        vec![version(), define("unused", num("42")), run("plot", vec![id("close")])],
    );
    assert!(analyze(&d)
        .iter()
        .any(|x| x.code == "unused-variable" && x.message.contains("unused")));
    assert_eq!(analyze(&d)[0].message, "Variable `unused` is declared but never used");
}

#[test]
fn used_variable_not_flagged() {
    let d = document(
        "//@version=6\nlen = 14\nplot(ta.sma(close, len))\n",
        vec![
            version(),
            define("len", num("14")),
            run("plot", vec![call("ta.sma", vec![id("close"), id("len")])]),
        ],
    );
    assert!(!analyze(&d).iter().any(|x| x.code == "unused-variable"));
}

#[test]
fn builtins_never_flagged_unused() {
    let d = document(
        "//@version=6\nplot(close)\n",
        vec![version(), run("plot", vec![id("close")])],
    );
    assert!(!analyze(&d).iter().any(|x| x.code == "unused-variable"));
}

#[test]
fn underscore_is_never_unused() {
    let d = document(
        "//@version=6\n_ = 1\n",
        vec![version(), define("_", num("1"))],
    );
    assert!(analyze(&d).is_empty());
}

#[test]
fn diagnostics_come_by_position() {
    // The strategy is reported last, but stands before the variables.
    let src = "strategy(\"S\")\nb = 1\na = 2\n";
    let d = document(
        src,
        vec![run("strategy", vec![string("\"S\"")]), define("b", num("1")), define("a", num("2"))],
    );
    let found: Vec<(usize, usize, &str)> =
        analyze(&d).iter().map(|x| (x.start_byte, x.end_byte, x.code)).collect();
    assert_eq!(
        found,
        vec![
            (0, 13, "missing-version"),
            (0, 13, "strategy-no-orders"),
            (14, 15, "unused-variable"),
            (20, 21, "unused-variable"),
        ]
    );
}

fn security(value: &str) -> Cst {
    call(
        "request.security",
        vec![
            dotted("syminfo.tickerid"),
            string("\"D\""),
            id("close"),
            keyword("lookahead", dotted(value)),
        ],
    )
}

#[test]
fn flags_lookahead_on() {
    let d = document(
        "//@version=6\nindicator(\"x\")\nx = request.security(syminfo.tickerid, \"D\", close, lookahead=barmerge.lookahead_on)\nplot(x)\n",
        vec![
            version(),
            run("indicator", vec![string("\"x\"")]),
            define("x", security("barmerge.lookahead_on")),
            run("plot", vec![id("x")]),
        ],
    );
    assert!(analyze(&d).iter().any(|x| x.code == "lookahead-bias"));
}

#[test]
fn no_warning_when_lookahead_off() {
    let d = document(
        "//@version=6\nindicator(\"x\")\nx = request.security(syminfo.tickerid, \"D\", close, lookahead=barmerge.lookahead_off)\nplot(x)\n",
        vec![
            version(),
            run("indicator", vec![string("\"x\"")]),
            define("x", security("barmerge.lookahead_off")),
            run("plot", vec![id("x")]),
        ],
    );
    assert!(!analyze(&d).iter().any(|x| x.code == "lookahead-bias"));
}

#[test]
fn lookahead_may_be_the_fifth_argument() {
    let args = |fifth: &str| {
        vec![
            id("s"),
            string("\"D\""),
            keyword("ignore", id("z")),
            id("close"),
            id("gaps"),
            dotted(fifth),
        ]
    };
    let src = "//@version=6\nrequest.security_lower_tf(s, \"D\", ignore=z, close, gaps, barmerge.lookahead_on)\n";
    let d = document(
        src,
        vec![version(), run("request.security_lower_tf", args("barmerge.lookahead_on"))],
    );
    let hits: Vec<Diagnostic> =
        analyze(&d).into_iter().filter(|x| x.code == "lookahead-bias").collect();
    assert_eq!(hits.len(), 1);
    assert_eq!(&src[hits[0].start_byte..hits[0].end_byte], "barmerge.lookahead_on");
}

fn history(series: &str, offset: Cst) -> Cst {
    node(
        "subscript",
        vec![under("series", id(series)), tok("["), under("offset", offset), tok("]")],
    )
}

#[test]
fn flags_negative_history() {
    let d = document(
        "//@version=6\nindicator(\"x\")\nplot(close[-1])\n",
        vec![
            version(),
            run("indicator", vec![string("\"x\"")]),
            run("plot", vec![history("close", node("unary_operation", vec![tok("-"), num("1")]))]),
        ],
    );
    assert!(analyze(&d).iter().any(|x| x.code == "future-leak"));
}

#[test]
fn other_offsets_are_not_future_leaks() {
    let d = document(
        "//@version=6\nplot(close[1] + open[not x])\n",
        vec![
            version(),
            run(
                "plot",
                vec![binary(
                    history("close", num("1")),
                    "+",
                    history("open", node("unary_operation", vec![tok("not"), id("x")])),
                )],
            ),
        ],
    );
    assert!(!has(&analyze(&d), "future-leak"));
}

// --- strategy-without-entry (Info, document-wide) ---

#[test]
fn flags_strategy_without_orders() {
    let d = document(
        "//@version=6\nstrategy(\"S\")\nplot(close)\n",
        vec![version(), run("strategy", vec![string("\"S\"")]), run("plot", vec![id("close")])],
    );
    assert!(analyze(&d)
        .iter()
        .any(|x| x.code == "strategy-no-orders" && x.severity == Severity::Info));
}

#[test]
fn flags_strategy_with_signal_var_but_no_order() {
    let d = document(
        "//@version=6\nstrategy(\"S\")\nlongCond = ta.crossover(close, open)\nplot(close)\n",
        vec![
            version(),
            run("strategy", vec![string("\"S\"")]),
            define("longCond", call("ta.crossover", vec![id("close"), id("open")])),
            run("plot", vec![id("close")]),
        ],
    );
    assert!(analyze(&d).iter().any(|x| x.code == "strategy-no-orders"));
}

fn guarded_entry() -> Document {
    document(
        "//@version=6\nstrategy(\"S\")\nif close > open\n    strategy.entry(\"L\", strategy.long)\n",
        vec![
            version(),
            run("strategy", vec![string("\"S\"")]),
            branch(
                compare("close", ">", "open"),
                vec![run("strategy.entry", vec![string("\"L\""), dotted("strategy.long")])],
            ),
        ],
    )
}

#[test]
fn strategy_with_guarded_entry_not_flagged() {
    // entry present, even though guarded by an `if`
    let d = guarded_entry();
    assert!(!analyze(&d).iter().any(|x| x.code == "strategy-no-orders"));
}

fn indicator_only() -> Document {
    document(
        "//@version=6\nindicator(\"x\")\nplot(close)\n",
        vec![version(), run("indicator", vec![string("\"x\"")]), run("plot", vec![id("close")])],
    )
}

#[test]
fn indicator_never_flagged_strategy_no_orders() {
    let d = indicator_only();
    assert!(!analyze(&d).iter().any(|x| x.code == "strategy-no-orders"));
}

// --- ta-stateful-in-conditional (Warning) ---

#[test]
fn flags_ta_rsi_in_if_body() {
    let d = document(
        "//@version=6\nindicator(\"x\")\nif close > open\n    myrsi = ta.rsi(close, 14)\n    plot(myrsi)\n",
        vec![
            version(),
            run("indicator", vec![string("\"x\"")]),
            branch(
                compare("close", ">", "open"),
                vec![
                    define("myrsi", call("ta.rsi", vec![id("close"), num("14")])),
                    run("plot", vec![id("myrsi")]),
                ],
            ),
        ],
    );
    assert!(analyze(&d)
        .iter()
        .any(|x| x.code == "ta-conditional" && x.message.contains("ta.rsi")));
}

#[test]
fn flags_ta_sma_in_for_body() {
    let d = document(
        "//@version=6\nindicator(\"x\")\nfor i = 0 to 5\n    s = ta.sma(close, 14)\n",
        vec![
            version(),
            run("indicator", vec![string("\"x\"")]),
            node(
                "for_statement",
                vec![
                    tok("for"),
                    under("counter", id("i")),
                    tok("="),
                    num("0"),
                    tok("to"),
                    num("5"),
                    under(
                        "body",
                        block(vec![define("s", call("ta.sma", vec![id("close"), num("14")]))]),
                    ),
                ],
            ),
        ],
    );
    assert!(analyze(&d)
        .iter()
        .any(|x| x.code == "ta-conditional" && x.message.contains("ta.sma")));
}

#[test]
fn ta_rsi_unconditional_not_flagged() {
    let d = document(
        "//@version=6\nindicator(\"x\")\nmyrsi = ta.rsi(close, 14)\nplot(close > open ? myrsi : na)\n",
        vec![
            version(),
            run("indicator", vec![string("\"x\"")]),
            define("myrsi", call("ta.rsi", vec![id("close"), num("14")])),
            run(
                "plot",
                vec![node(
                    "conditional_expression",
                    vec![compare("close", ">", "open"), tok("?"), id("myrsi"), tok(":"), id("na")],
                )],
            ),
        ],
    );
    assert!(!analyze(&d).iter().any(|x| x.code == "ta-conditional"));
}

#[test]
fn ta_crossover_in_condition_not_flagged() {
    // ta.crossover is excluded from the allowlist AND it sits in the
    // condition, not the body.
    let d = document(
        "//@version=6\nindicator(\"x\")\nif ta.crossover(close, open)\n    plot(close)\n",
        vec![
            version(),
            run("indicator", vec![string("\"x\"")]),
            branch(
                call("ta.crossover", vec![id("close"), id("open")]),
                vec![run("plot", vec![id("close")])],
            ),
        ],
    );
    assert!(!analyze(&d).iter().any(|x| x.code == "ta-conditional"));
}

#[test]
fn nested_conditional_ta_reported_once() {
    // ta.rsi sits in an inner `if` nested inside an outer `if`; it must be
    // reported exactly once (owned by the inner conditional's visit).
    let d = document(
        "//@version=6\nindicator(\"x\")\nif close > open\n    if high > low\n        r = ta.rsi(close, 14)\n        plot(r)\n",
        vec![
            version(),
            run("indicator", vec![string("\"x\"")]),
            branch(
                compare("close", ">", "open"),
                vec![branch(
                    compare("high", ">", "low"),
                    vec![
                        define("r", call("ta.rsi", vec![id("close"), num("14")])),
                        run("plot", vec![id("r")]),
                    ],
                )],
            ),
        ],
    );
    let hits = analyze(&d).iter().filter(|x| x.code == "ta-conditional").count();
    assert_eq!(hits, 1, "ta.rsi in nested if should be reported exactly once");
}

#[test]
fn stateful_call_in_a_condition_is_fine() {
    let d = document(
        "//@version=6\nif ta.rsi(close, 14) > 70\n    plot(close)\n",
        vec![
            version(),
            branch(
                node(
                    "comparison_operation",
                    vec![call("ta.rsi", vec![id("close"), num("14")]), tok(">"), num("70")],
                ),
                vec![run("plot", vec![id("close")])],
            ),
        ],
    );
    assert!(!has(&analyze(&d), "ta-conditional"));
}

// --- self-assignment (Warning) ---

#[test]
fn flags_self_assignment() {
    let d = document(
        "//@version=6\nindicator(\"x\")\nx = 1\nx := x\nplot(x)\n",
        vec![
            version(),
            run("indicator", vec![string("\"x\"")]),
            define("x", num("1")),
            reassign("x", ":=", id("x")),
            run("plot", vec![id("x")]),
        ],
    );
    assert!(analyze(&d).iter().any(|diag| diag.code == "self-assignment"
        && diag.severity == Severity::Warning
        && diag.message.contains("x := x")));
}

#[test]
fn flags_self_assignment_other_name() {
    let d = document(
        "//@version=6\nindicator(\"x\")\nlen = 14\nlen := len\nplot(close)\n",
        vec![
            version(),
            run("indicator", vec![string("\"x\"")]),
            define("len", num("14")),
            reassign("len", ":=", id("len")),
            run("plot", vec![id("close")]),
        ],
    );
    assert!(analyze(&d).iter().any(|diag| diag.code == "self-assignment"));
    let one = analyze(&d).into_iter().find(|diag| diag.code == "self-assignment").unwrap();
    assert_eq!(one.message, "Self-assignment `len := len` has no effect");
}

#[test]
fn compound_self_assignment_not_flagged() {
    // `x += x` doubles x — semantically meaningful, not a no-op.
    let d = document(
        "//@version=6\nindicator(\"x\")\nx = 1\nx += x\nplot(x)\n",
        vec![
            version(),
            run("indicator", vec![string("\"x\"")]),
            define("x", num("1")),
            reassign("x", "+=", id("x")),
            run("plot", vec![id("x")]),
        ],
    );
    assert!(!analyze(&d).iter().any(|diag| diag.code == "self-assignment"));
}

#[test]
fn self_assignment_with_expr_value_not_flagged() {
    // RHS is a math_operation, not a bare identifier.
    let d = document(
        "//@version=6\nindicator(\"x\")\nx = 1\nx := x + 1\nplot(x)\n",
        vec![
            version(),
            run("indicator", vec![string("\"x\"")]),
            define("x", num("1")),
            reassign("x", ":=", binary(id("x"), "+", num("1"))),
            run("plot", vec![id("x")]),
        ],
    );
    assert!(!analyze(&d).iter().any(|diag| diag.code == "self-assignment"));
}

// --- strategy-no-exit (Info) ---

#[test]
fn flags_strategy_no_exit_guarded_entry() {
    let d = guarded_entry();
    assert!(analyze(&d)
        .iter()
        .any(|diag| diag.code == "strategy-no-exit" && diag.severity == Severity::Info));
}

fn entry(name: &str, direction: &str) -> Cst {
    run("strategy.entry", vec![string(name), dotted(direction)])
}

#[test]
fn flags_strategy_no_exit_top_level_entry() {
    let d = document(
        "//@version=6\nstrategy(\"S\")\nstrategy.entry(\"L\", strategy.long)\nplot(close)\n",
        vec![
            version(),
            run("strategy", vec![string("\"S\"")]),
            entry("\"L\"", "strategy.long"),
            run("plot", vec![id("close")]),
        ],
    );
    assert!(analyze(&d)
        .iter()
        .any(|diag| diag.code == "strategy-no-exit" && diag.severity == Severity::Info));
}

#[test]
fn strategy_with_exit_not_flagged_no_exit() {
    let d = document(
        "//@version=6\nstrategy(\"S\")\nstrategy.entry(\"L\", strategy.long)\nstrategy.exit(\"X\", \"L\", stop=low)\n",
        vec![
            version(),
            run("strategy", vec![string("\"S\"")]),
            entry("\"L\"", "strategy.long"),
            run(
                "strategy.exit",
                vec![string("\"X\""), string("\"L\""), keyword("stop", id("low"))],
            ),
        ],
    );
    assert!(!analyze(&d).iter().any(|diag| diag.code == "strategy-no-exit"));
}

#[test]
fn two_entries_reverse_exit_not_flagged() {
    // Two entries = reverse-exit pattern (close long by opening short).
    let d = document(
        "//@version=6\nstrategy(\"S\")\nstrategy.entry(\"L\", strategy.long)\nstrategy.entry(\"S\", strategy.short)\n",
        vec![
            version(),
            run("strategy", vec![string("\"S\"")]),
            entry("\"L\"", "strategy.long"),
            entry("\"S\"", "strategy.short"),
        ],
    );
    assert!(!analyze(&d).iter().any(|diag| diag.code == "strategy-no-exit"));
}

#[test]
fn indicator_never_flagged_strategy_no_exit() {
    let d = indicator_only();
    assert!(!analyze(&d).iter().any(|diag| diag.code == "strategy-no-exit"));
}

#[test]
fn strategy_with_import_not_flagged_no_exit() {
    // Exit could live in the imported library; suppressed by import guard.
    let d = document(
        "//@version=6\nimport Foo/Bar/1 as lib\nstrategy(\"S\")\nstrategy.entry(\"L\", strategy.long)\n",
        vec![
            version(),
            import("Foo/Bar/1", Some("lib")),
            run("strategy", vec![string("\"S\"")]),
            entry("\"L\"", "strategy.long"),
        ],
    );
    assert!(!analyze(&d).iter().any(|diag| diag.code == "strategy-no-exit"));
}

#[test]
fn only_a_top_level_call_declares_a_strategy() {
    let d = document(
        "//@version=6\nplot(strategy(1))\n",
        vec![version(), run("plot", vec![call("strategy", vec![num("1")])])],
    );
    assert!(!has(&analyze(&d), "strategy-no-orders"));
}

// --- duplicate-parameter (Error) ---

#[test]
fn flags_duplicate_parameter() {
    let d = document(
        "//@version=6\nf(a, b, a) =>\n    a + b\nplot(f(1,2,3))\n",
        vec![
            version(),
            declare(&[], "function", "f", plain(&["a", "b", "a"]), binary(id("a"), "+", id("b"))),
            run("plot", vec![call("f", vec![num("1"), num("2"), num("3")])]),
        ],
    );
    assert!(analyze(&d).iter().any(|diag| diag.code == "duplicate-parameter"
        && diag.severity == Severity::Error
        && diag.message.contains('a')));
    let one = analyze(&d).into_iter().find(|diag| diag.code == "duplicate-parameter").unwrap();
    // Reported at the redeclaring occurrence.
    assert_eq!(one.start_byte, 21);
    assert_eq!(one.message, "Duplicate parameter `a` in function definition");
}

#[test]
fn flags_duplicate_parameter_typed_defaulted_qualified() {
    // type/qualifier/default siblings must not hide the bare identifier name.
    let d = document(
        "//@version=6\nf(int a, float b = 1.0, simple int a) =>\n    a + b\nplot(f(1))\n",
        vec![
            version(),
            declare(
                &[],
                "function",
                "f",
                vec![
                    param("", "int", "a", ""),
                    param("", "float", "b", "1.0"),
                    param("simple", "int", "a", ""),
                ],
                binary(id("a"), "+", id("b")),
            ),
            run("plot", vec![call("f", vec![num("1")])]),
        ],
    );
    assert!(analyze(&d)
        .iter()
        .any(|diag| diag.code == "duplicate-parameter" && diag.message.contains('a')));
}

#[test]
fn distinct_parameters_not_flagged() {
    let d = document(
        "//@version=6\nf(a, b, c) =>\n    a + b + c\nplot(f(1,2,3))\n",
        vec![
            version(),
            declare(
                &[],
                "function",
                "f",
                plain(&["a", "b", "c"]),
                binary(binary(id("a"), "+", id("b")), "+", id("c")),
            ),
            run("plot", vec![call("f", vec![num("1"), num("2"), num("3")])]),
        ],
    );
    assert!(!analyze(&d).iter().any(|diag| diag.code == "duplicate-parameter"));
}

#[test]
fn same_name_in_two_functions_not_flagged() {
    // Same param name across two separate definitions is valid.
    let d = document(
        "//@version=6\nf(a) =>\n    a\ng(a) =>\n    a\nplot(f(1)+g(2))\n",
        vec![
            version(),
            declare(&[], "function", "f", plain(&["a"]), id("a")),
            declare(&[], "function", "g", plain(&["a"]), id("a")),
            run(
                "plot",
                vec![binary(call("f", vec![num("1")]), "+", call("g", vec![num("2")]))],
            ),
        ],
    );
    assert!(!analyze(&d).iter().any(|diag| diag.code == "duplicate-parameter"));
}

// --- redundant-na (Warning) ---

fn ternary(name: &str) -> Cst {
    node("conditional_expression", vec![id(name), tok("?"), num("1"), tok(":"), num("0")])
}

#[test]
fn flags_redundant_na() {
    let d = document(
        "//@version=6\nx = na(na(close))\nplot(x ? 1 : 0)\n",
        vec![
            version(),
            define("x", call("na", vec![call("na", vec![id("close")])])),
            run("plot", vec![ternary("x")]),
        ],
    );
    assert!(analyze(&d)
        .iter()
        .any(|diag| diag.code == "redundant-na" && diag.severity == Severity::Warning));
}

#[test]
fn single_na_not_flagged() {
    let d = document(
        "//@version=6\nx = na(close)\nplot(x ? 1 : 0)\n",
        vec![
            version(),
            define("x", call("na", vec![id("close")])),
            run("plot", vec![ternary("x")]),
        ],
    );
    assert!(!analyze(&d).iter().any(|diag| diag.code == "redundant-na"));
}

#[test]
fn nz_wrapping_na_not_flagged() {
    // Outer fn is `nz`, not `na` — legitimate nesting, must not fire.
    let d = document(
        "//@version=6\nx = nz(na(close))\nplot(x ? 1 : 0)\n",
        vec![
            version(),
            define("x", call("nz", vec![call("na", vec![id("close")])])),
            run("plot", vec![ternary("x")]),
        ],
    );
    assert!(!analyze(&d).iter().any(|diag| diag.code == "redundant-na"));
}

#[test]
fn keyword_argument_is_no_redundant_na() {
    let d = document(
        "//@version=6\nplot(na(x=na(close)))\n",
        vec![
            version(),
            run("plot", vec![call("na", vec![keyword("x", call("na", vec![id("close")]))])]),
        ],
    );
    assert!(!has(&analyze(&d), "redundant-na"));
}
