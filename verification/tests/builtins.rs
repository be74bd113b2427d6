//! The builtins database: a database of the full size, with the entries that
//! matter spelled out.

use pine_rs::builtins::{
    constant, function, is_builtin, is_keyword, variable, BuiltinConstant, BuiltinFunction,
    BuiltinVariable, Builtins, FunctionFlags, Keywords, Param,
};

fn param(name: &str) -> Param {
    Param {
        name: name.to_string(),
        ty: "series float".to_string(),
        description: String::new(),
        required: true,
        default: None,
    }
}

fn func(name: &str, params: &[&str]) -> BuiltinFunction {
    BuiltinFunction {
        name: name.to_string(),
        namespace: name.rsplit_once('.').map(|(ns, _)| ns.to_string()),
        syntax: String::new(),
        description: String::new(),
        parameters: params.iter().map(|p| param(p)).collect(),
        returns: "series float".to_string(),
        flags: Some(FunctionFlags::default()),
        deprecated: None,
        since: None,
        example: None,
    }
}

fn var(name: &str) -> BuiltinVariable {
    BuiltinVariable {
        name: name.to_string(),
        namespace: None,
        ty: "float".to_string(),
        qualifier: "series".to_string(),
        description: String::new(),
        since: None,
    }
}

fn con(name: &str) -> BuiltinConstant {
    BuiltinConstant {
        name: name.to_string(),
        namespace: String::new(),
        short_name: String::new(),
        ty: "const color".to_string(),
        description: None,
    }
}

fn database() -> Builtins {
    let mut functions = vec![
        func("ta.sma", &["source", "length"]),
        func("ta.ema", &["source", "length"]),
        func(
            "request.security",
            &["symbol", "timeframe", "expression", "gaps", "lookahead"],
        ),
    ];
    for i in functions.len()..457 {
        functions.push(func(&format!("pad.f{i}"), &[]));
    }
    let mut variables = vec![var("close"), var("bar_index")];
    for i in variables.len()..90 {
        variables.push(var(&format!("pad.v{i}")));
    }
    let mut constants = vec![con("color.red")];
    for i in constants.len()..237 {
        constants.push(con(&format!("pad.c{i}")));
    }
    let mut keywords = Keywords::default();
    keywords.declaration = vec!["var".to_string(), "varip".to_string()];
    keywords.all = vec!["if".to_string(), "var".to_string(), "varip".to_string()];
    for i in keywords.all.len()..28 {
        keywords.all.push(format!("word{i}"));
    }
    Builtins { functions, variables, constants, keywords }
}

#[test]
fn facade_resolves_builtins() {
    let db = database();
    assert!(function(&db, "ta.ema").is_some());
    assert!(variable(&db, "close").is_some());
    assert_eq!(db.functions.len(), 457);
}

#[test]
fn name_indexes_are_complete() {
    let db = database();
    // Every entry is found under its own name: no name stands twice.
    for f in &db.functions {
        assert!(std::ptr::eq(function(&db, &f.name).unwrap(), f), "no duplicate fn names");
    }
    for v in &db.variables {
        assert!(std::ptr::eq(variable(&db, &v.name).unwrap(), v), "no duplicate var names");
    }
    for c in &db.constants {
        assert!(std::ptr::eq(constant(&db, &c.name).unwrap(), c), "no duplicate const names");
    }
}

#[test]
fn spot_check_ta_sma() {
    let db = database();
    let f = function(&db, "ta.sma").expect("ta.sma present");
    assert_eq!(f.namespace.as_deref(), Some("ta"));
    assert!(!f.parameters.is_empty(), "ta.sma should have parameters");
}

#[test]
fn request_security_has_gaps_and_lookahead() {
    let db = database();
    let f = function(&db, "request.security").expect("request.security present");
    let params: Vec<&str> = f.parameters.iter().map(|p| p.name.as_str()).collect();
    assert!(params.contains(&"gaps"), "params: {params:?}");
    assert!(params.contains(&"lookahead"), "params: {params:?}");
}

#[test]
fn builtin_variable_close_present() {
    let db = database();
    assert!(variable(&db, "close").is_some(), "close should be a builtin variable");
}

#[test]
fn keywords_categorized() {
    let db = database();
    assert!(is_keyword(&db, "if"));
    assert!(!db.keywords.declaration.is_empty());
    assert!(!is_keyword(&db, "iff"));
}

#[test]
fn the_last_entry_of_a_name_counts() {
    let mut db = database();
    let mut again = func("ta.sma", &["x"]);
    again.returns = "again".to_string();
    db.functions.push(again);
    assert_eq!(function(&db, "ta.sma").unwrap().returns, "again");
}

#[test]
fn unknown_names_are_not_found() {
    let db = database();
    assert!(function(&db, "close").is_none());
    assert!(variable(&db, "ta.sma").is_none());
    assert!(constant(&db, "red").is_none());
    assert!(is_builtin(&db, "color.red"));
    assert!(is_builtin(&db, "close"));
    assert!(!is_builtin(&db, "colour.red"));
}
