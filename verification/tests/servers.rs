use xref_indexer::json::{Fields, Json};
use xref_indexer::json_text::{compact_json, parse_json, pretty_json};
use xref_indexer::mcp::{
    batch_reply, handle_line, handle_message, handle_parsed, parse_error, tool_reply, Action, Line,
};
use xref_indexer::index::IndexBuilder;
use xref_indexer::language::Language;
use xref_indexer::server::{
    db_path, definitions_json, hierarchy_json, indexed_json, json_err, json_ok, list_databases,
    lowered_language, not_found, parse_server_args, references_json, request_language, stats_json,
};
use xref_indexer::tool_args::run_tool;
use xref_indexer::tools::tools;
use xref_indexer::types::{
    DefId, Definition, FileSymbols, InheritEdge, Location, Reference, SymbolKind, Visibility,
};

fn texts(items: &[&str]) -> Vec<String> {
    items.iter().map(|s| s.to_string()).collect()
}

fn object(members: Vec<(&str, Json)>) -> Json {
    let mut fields = Fields::new();
    for (name, value) in members {
        fields = fields.with(name, value);
    }
    fields.object()
}

fn text_at(j: &Json, name: &str) -> String {
    j.get(name)
        .and_then(|v| v.as_str())
        .unwrap_or_else(|| panic!("no text {name}"))
        .to_string()
}

fn number_at(j: &Json, name: &str) -> String {
    match j.get(name) {
        Some(Json::Number(s)) => s.clone(),
        _ => panic!("no number {name}"),
    }
}

fn message(id: Option<&str>, method: Option<&str>, params: Option<Json>) -> Json {
    let mut fields = Fields::new();
    if let Some(id) = id {
        fields = fields.with("id", Json::Number(id.to_string()));
    }
    if let Some(method) = method {
        fields = fields.with("method", Json::text(method));
    }
    if let Some(params) = params {
        fields = fields.with("params", params);
    }
    fields.object()
}

fn reply(m: &Json) -> Json {
    match handle_message(m) {
        Action::Reply(j) => j,
        Action::Silent => panic!("no reply"),
        Action::Run { argv, .. } => panic!("runs {argv:?}"),
    }
}

fn result(m: &Json) -> Json {
    let j = reply(m);
    assert_eq!(text_at(&j, "jsonrpc"), "2.0");
    assert_eq!(number_at(&j, "id"), "7");
    j.get("result").expect("a result").copy()
}

#[test]
fn the_server_introduces_itself() {
    let r = result(&message(Some("7"), Some("initialize"), None));
    assert_eq!(text_at(&r, "protocolVersion"), "2024-11-05");
    assert_eq!(text_at(r.get("serverInfo").expect("the server"), "name"), "xref-indexer");
    let params = object(vec![("protocolVersion", Json::text("2025-01-01"))]);
    let r = result(&message(Some("7"), Some("initialize"), Some(params)));
    assert_eq!(text_at(&r, "protocolVersion"), "2025-01-01");
}

#[test]
fn messages_without_an_id_are_not_answered() {
    for method in ["initialize", "ping", "tools/list", "tools/call", "nonsense"] {
        assert!(matches!(
            handle_message(&message(None, Some(method), None)),
            Action::Silent
        ));
    }
    assert!(matches!(handle_message(&message(None, None, None)), Action::Silent));
    assert!(matches!(handle_message(&Json::Null), Action::Silent));
    let note = message(Some("7"), Some("notifications/initialized"), None);
    assert!(matches!(handle_message(&note), Action::Silent));
}

#[test]
fn messages_that_are_not_understood_are_refused() {
    let j = reply(&message(Some("7"), None, None));
    let error = j.get("error").expect("an error");
    assert_eq!(number_at(error, "code"), "-32600");
    assert_eq!(text_at(error, "message"), "missing method");
    let j = reply(&message(Some("7"), Some("fly"), None));
    let error = j.get("error").expect("an error");
    assert_eq!(number_at(error, "code"), "-32601");
    assert_eq!(text_at(error, "message"), "unknown method 'fly'");
    let j = parse_error("bad");
    assert_eq!(number_at(j.get("error").expect("an error"), "code"), "-32700");
    assert!(matches!(j.get("id"), Some(Json::Null)));
}

#[test]
fn lines_hold_one_message_or_several() {
    assert!(matches!(handle_line(" \t"), Line::Blank));
    match handle_line(r#"{"jsonrpc":"2.0","id":7,"method":"ping"}"#) {
        Line::One(Action::Reply(j)) => assert_eq!(number_at(&j, "id"), "7"),
        _ => panic!("no reply"),
    }
    match handle_line(
        r#"[{"id":1,"method":"ping"},{"method":"ping"},{"id":"x","method":"tools/call","params":{"name":"xref_stats"}}]"#,
    ) {
        Line::Batch(actions) => {
            assert_eq!(actions.len(), 3);
            assert!(matches!(actions[0], Action::Reply(_)));
            assert!(matches!(actions[1], Action::Silent));
            match &actions[2] {
                Action::Run { id, argv } => {
                    assert_eq!(id.as_str(), Some("x"));
                    assert_eq!(*argv, texts(&["stats"]));
                }
                _ => panic!("nothing is run"),
            }
        }
        _ => panic!("no batch"),
    }
    assert!(matches!(handle_line("[]"), Line::Batch(actions) if actions.is_empty()));
    match handle_line("{") {
        Line::One(Action::Reply(j)) => {
            let error = j.get("error").expect("an error");
            assert_eq!(number_at(error, "code"), "-32700");
            assert!(text_at(error, "message").starts_with("parse error: EOF"));
        }
        _ => panic!("no reply"),
    }
    assert!(matches!(
        handle_parsed(Err("why".to_string())),
        Line::One(Action::Reply(_))
    ));
}

#[test]
fn json_text_is_read() {
    let j = parse_json(r#"{"b":[1,-2,1.5,true,null],"a":"x\u00e9"}"#).unwrap_or(Json::Null);
    assert_eq!(text_at(&j, "a"), "x\u{e9}");
    match j.get("b") {
        Some(Json::Array(items)) => {
            assert!(matches!(&items[0], Json::Number(s) if s == "1"));
            assert!(matches!(&items[1], Json::Number(s) if s == "-2"));
            assert!(matches!(&items[2], Json::Number(s) if s == "1.5"));
            assert!(matches!(items[3], Json::Bool(true)));
            assert!(matches!(items[4], Json::Null));
        }
        _ => panic!("no list"),
    }
    assert!(parse_json("nul").is_err());
}

#[test]
fn json_text_is_written() {
    let j = object(vec![
        ("n", Json::integer(-5)),
        ("list", Json::Array(vec![Json::Null, Json::Bool(false), Json::text("a\"b")])),
    ]);
    let line = compact_json(&j);
    assert!(!line.contains('\n'));
    assert!(line.contains(r#""n":-5"#), "{line}");
    assert!(line.contains(r#""list":[null,false,"a\"b"]"#), "{line}");
    let lines = pretty_json(&j);
    assert!(lines.contains("\n  \"n\": -5"), "{lines}");
    let twice = Fields::new()
        .with("x", Json::count(1))
        .with("x", Json::count(2))
        .object();
    assert_eq!(compact_json(&twice), r#"{"x":2}"#);
}

#[test]
fn lists_are_answered() {
    let r = result(&message(Some("7"), Some("tools/list"), None));
    match r.get("tools") {
        Some(Json::Array(items)) => {
            let names: Vec<String> = items.iter().map(|t| text_at(t, "name")).collect();
            assert_eq!(
                names,
                texts(&[
                    "xref_index", "xref_reindex", "xref_find", "xref_search", "xref_refs",
                    "xref_callers", "xref_callees", "xref_hierarchy", "xref_context",
                    "xref_expand", "xref_stats", "xref_sql",
                ])
            );
        }
        _ => panic!("no tools"),
    }
    for (method, name) in [("resources/list", "resources"), ("prompts/list", "prompts")] {
        match result(&message(Some("7"), Some(method), None)).get(name) {
            Some(Json::Array(items)) => assert!(items.is_empty()),
            _ => panic!("no {name}"),
        }
    }
    match result(&message(Some("7"), Some("ping"), None)) {
        Json::Object(members) => assert!(members.is_empty()),
        _ => panic!("no object"),
    }
}

#[test]
fn schemas_name_what_is_required() {
    let all = tools();
    let required = |i: usize| match all[i].get("inputSchema").and_then(|s| s.get("required")) {
        Some(Json::Array(items)) => items.iter().map(|j| j.as_str().unwrap_or("").to_string()).collect(),
        _ => Vec::new(),
    };
    assert_eq!(required(0), texts(&["roots"]));
    assert_eq!(required(3), texts(&["pattern"]));
    assert_eq!(required(7), texts(&["class"]));
    assert_eq!(required(8), texts(&[]));
    assert_eq!(required(11), texts(&["sql"]));
    let db = all[2]
        .get("inputSchema")
        .and_then(|s| s.get("properties"))
        .and_then(|p| p.get("db"))
        .expect("a property");
    assert_eq!(
        text_at(db, "description"),
        "SQLite DB path. Defaults to .git/code-indexer/xrefs.sqlite3."
    );
}

fn call(name: Option<&str>, arguments: Option<Json>) -> Json {
    let mut fields = Fields::new();
    if let Some(name) = name {
        fields = fields.with("name", Json::text(name));
    }
    if let Some(arguments) = arguments {
        fields = fields.with("arguments", arguments);
    }
    message(Some("7"), Some("tools/call"), Some(fields.object()))
}

fn failure(m: &Json) -> String {
    let r = result(m);
    assert!(matches!(r.get("isError"), Some(Json::Bool(true))));
    match r.get("content") {
        Some(Json::Array(items)) => text_at(&items[0], "text"),
        _ => panic!("no content"),
    }
}

#[test]
fn tool_calls_run_commands() {
    let arguments = object(vec![("symbol", Json::text("f")), ("limit", Json::Number("5".into()))]);
    match handle_message(&call(Some("xref_find"), Some(arguments))) {
        Action::Run { id, argv } => {
            assert!(matches!(id, Json::Number(_)));
            assert_eq!(argv, texts(&["find", "f", "--limit", "5"]));
        }
        _ => panic!("nothing is run"),
    }
    assert_eq!(
        failure(&message(Some("7"), Some("tools/call"), None)),
        "tools/call missing params"
    );
    assert_eq!(failure(&call(None, None)), "tools/call missing tool name");
    assert_eq!(failure(&call(Some("fly"), None)), "unknown tool 'fly'");
    assert_eq!(failure(&call(Some("xref_find"), None)), "missing required symbol/name/query");
}

#[test]
fn tools_stand_for_command_lines() {
    let run = |name: &str, members: Vec<(&str, Json)>| run_tool(name, &object(members));
    assert_eq!(
        run(
            "xref_index",
            vec![
                ("roots", Json::texts(&texts(&["a", "b"]))),
                ("db", Json::text("x.db")),
                ("language", Json::text("c")),
                ("threads", Json::Number("2".into())),
                ("follow_symlinks", Json::Bool(true)),
            ]
        ),
        Ok(texts(&[
            "index", "--root", "a", "--root", "b", "--db", "x.db", "--language", "c",
            "--references", "none", "--threads", "2", "--follow-symlinks",
        ]))
    );
    assert_eq!(
        run("xref_reindex", vec![("root", Json::text("a")), ("references", Json::text("all")),
            ("reference_context", Json::text("yes"))]),
        Ok(texts(&["reindex", "--root", "a", "--references", "all", "--reference-context"]))
    );
    assert_eq!(run("xref_index", vec![]), Err("missing required roots array".to_string()));
    assert_eq!(
        run("xref_index", vec![("roots", Json::Bool(true))]),
        Err("roots must be a string or array of strings".to_string())
    );
    assert_eq!(
        run("xref_index", vec![("roots", Json::Array(vec![Json::Null]))]),
        Err("roots must contain strings".to_string())
    );
    assert_eq!(
        run("xref_stats", vec![("paths", Json::text("p")), ("no_reindex", Json::Bool(true)),
            ("snippets", Json::Bool(false))]),
        Ok(texts(&["stats", "--root", "p", "--no-reindex", "--no-snippets"]))
    );
    assert_eq!(
        run("xref_find", vec![("symbol", Json::Null), ("name", Json::text("n")),
            ("include_search", Json::Bool(true)), ("context_lines", Json::text("4"))]),
        Ok(texts(&["find", "n", "--context", "4", "--include-search"]))
    );
    assert_eq!(
        run("xref_search", vec![("pattern", Json::text("p")), ("include_search", Json::Bool(true))]),
        Ok(texts(&["search", "p"]))
    );
    assert_eq!(run("xref_refs", vec![("query", Json::text("q"))]), Ok(texts(&["refs", "q"])));
    assert_eq!(run("xref_callers", vec![("symbol", Json::text("q"))]), Ok(texts(&["callers", "q"])));
    assert_eq!(run("xref_callees", vec![("symbol", Json::text("q"))]), Ok(texts(&["callees", "q"])));
    assert_eq!(run("xref_hierarchy", vec![("class", Json::text("C"))]), Ok(texts(&["hierarchy", "C"])));
    assert_eq!(
        run("xref_context", vec![("file", Json::text("a.c")), ("line", Json::Number("3".into())),
            ("radius", Json::Number("1".into()))]),
        Ok(texts(&["context", "--file", "a.c", "--line", "3", "--context", "1"]))
    );
    assert_eq!(
        run("xref_context", vec![("file", Json::text("a.c"))]),
        Err("missing required line".to_string())
    );
    assert_eq!(
        run("xref_context", vec![("symbol", Json::text("s")), ("db", Json::text("x.db")),
            ("limit", Json::Number("1".into()))]),
        Ok(texts(&["context", "s", "--db", "x.db", "--limit", "1"]))
    );
    assert_eq!(
        run("xref_context", vec![]),
        Err("missing required symbol/name/query".to_string())
    );
    assert_eq!(
        run("xref_expand", vec![("seed", Json::text("s")), ("direction", Json::text("both")),
            ("depth", Json::Number("2".into()))]),
        Ok(texts(&["expand", "s", "--direction", "both", "--depth", "2"]))
    );
    assert_eq!(
        run("xref_sql", vec![("sql", Json::text("SELECT 1")), ("limit", Json::Number("1.5".into()))]),
        Ok(texts(&["sql", "--sql", "SELECT 1"]))
    );
    assert_eq!(run("xref_sql", vec![]), Err("missing required sql/query".to_string()));
}

#[test]
fn outcomes_of_tools_are_answered() {
    let value = object(vec![("b", Json::count(1)), ("a", Json::text("v"))]);
    let good = tool_reply(Json::Number("7".into()), Ok(value));
    let r = good.get("result").expect("a result");
    assert!(matches!(r.get("isError"), Some(Json::Bool(false))));
    assert_eq!(text_at(r.get("structuredContent").expect("the value"), "a"), "v");
    match r.get("content") {
        Some(Json::Array(items)) => {
            let written = text_at(&items[0], "text");
            assert_ne!(written.lines().count(), 1);
            let again = parse_json(&written).unwrap_or(Json::Null);
            assert_eq!(text_at(&again, "a"), "v");
            assert_eq!(number_at(&again, "b"), "1");
        }
        _ => panic!("no content"),
    }
    let bad = tool_reply(Json::Null, Err("why".to_string()));
    assert!(bad.get("result").and_then(|r| r.get("structuredContent")).is_none());
    assert!(batch_reply(vec![]).is_none());
    assert!(matches!(batch_reply(vec![Json::Null]), Some(Json::Array(items)) if items.len() == 1));
}

#[test]
fn the_web_server_is_configured_by_arguments() {
    let a = parse_server_args(&texts(&[]));
    assert_eq!((a.data_dir.as_str(), a.host.as_str(), a.port), ("./data", "127.0.0.1", 8970));
    let a = parse_server_args(&texts(&["--data-dir", "d", "x", "--host", "h", "--port", "80"]));
    assert_eq!((a.data_dir.as_str(), a.host.as_str(), a.port), ("d", "h", 80));
    assert_eq!(parse_server_args(&texts(&["--port", "65536"])).port, 8970);
    assert_eq!(parse_server_args(&texts(&["--port"])).port, 8970);
}

#[test]
fn databases_lie_in_the_data_directory() {
    assert_eq!(db_path("data", "a/b"), "data/a_b.db");
    assert_eq!(db_path("data/", "../x"), "data/.._x.db");
    assert_eq!(not_found("x", "data/x.db"), "database 'x' not found at data/x.db");
    match list_databases(&texts(&["data/a.db", "data/b.txt", "data/.db", "data/c.d.db"])) {
        Json::Array(items) => {
            let names: Vec<String> = items.iter().map(|j| text_at(j, "name")).collect();
            assert_eq!(names, texts(&["a", "c.d"]));
            assert_eq!(text_at(&items[0], "path"), "data/a.db");
        }
        _ => panic!("no list"),
    }
}

#[test]
fn requests_name_languages() {
    assert_eq!(request_language("C++"), Ok(Language::Cpp));
    assert_eq!(request_language("C"), Ok(Language::C));
    assert_eq!(lowered_language("cpp"), Ok(Language::Cpp));
    assert_eq!(
        request_language("Go"),
        Err("unsupported language: 'go' (use 'c' or 'cpp')".to_string())
    );
}

fn place() -> Location {
    Location {
        file: "a.cpp".to_string(),
        line: 1,
        column: 2,
        end_line: 3,
        end_column: 4,
    }
}

#[test]
fn replies_carry_records() {
    let mut builder = IndexBuilder::new();
    let class = |name: &str| Definition {
        id: None,
        name: name.to_string(),
        qualified_name: name.to_string(),
        kind: SymbolKind::EnumVariant,
        location: place(),
        parent: None,
        signature: None,
        visibility: Visibility::Protected,
        is_definition: true,
        extra: None,
    };
    builder.add_file(FileSymbols {
        file: "a.cpp".to_string(),
        language: "cpp".to_string(),
        definitions: vec![class("B"), class("D")],
        references: vec![Reference {
            id: Some(-3),
            name: "B".to_string(),
            kind: SymbolKind::Class,
            location: place(),
            def_id: None,
            context: None,
        }],
        calls: vec![],
        inherits: vec![InheritEdge {
            derived_name: "D".to_string(),
            base_name: "B".to_string(),
            location: place(),
            access: Visibility::Public,
            is_virtual: false,
        }],
    });
    let index = builder.build();
    assert_eq!(index.references()[0].def_id, Some(DefId(0)));
    let defs = definitions_json(&index.find_definition("B"));
    match &defs {
        Json::Array(items) => {
            assert_eq!(text_at(&items[0], "kind"), "EnumVariant");
            assert_eq!(text_at(&items[0], "visibility"), "Protected");
            assert!(matches!(items[0].get("id"), Some(Json::Null)));
            assert_eq!(number_at(items[0].get("location").expect("a place"), "column"), "2");
        }
        _ => panic!("no list"),
    }
    match references_json(&index.find_references("B")) {
        Json::Array(items) => {
            assert_eq!(number_at(&items[0], "id"), "-3");
            assert_eq!(number_at(&items[0], "def_id"), "0");
        }
        _ => panic!("no list"),
    }
    let h = hierarchy_json(&index.class_hierarchy("D"));
    assert!(matches!(h.get("bases"), Some(Json::Array(items)) if items.len() == 1));
    let stats = stats_json(&index);
    assert_eq!(number_at(&stats, "inherits"), "1");
    let indexed = indexed_json("x", "data/x.db", &index);
    assert_eq!(number_at(&indexed, "definitions"), "2");
    let ok = json_ok(defs);
    assert!(matches!(ok.get("success"), Some(Json::Bool(true))));
    let err = json_err("no");
    assert_eq!(text_at(&err, "error"), "no");
}

#[test]
fn numbers_are_written_as_they_are_read() {
    assert_eq!(compact_json(&Json::integer(i64::MIN)), "-9223372036854775808");
    assert_eq!(compact_json(&Json::integer(-1)), "-1");
    assert_eq!(compact_json(&Json::Number("18446744073709551615".to_string())), "18446744073709551615");
    assert_eq!(compact_json(&Json::Number("1.50".to_string())), "1.5");
    for s in ["0.1", "51.248178375505404", "-93.31137037688033", "52.314008204106244"] {
        assert_eq!(compact_json(&Json::Number(s.to_string())), s);
    }
    assert_eq!(compact_json(&Json::Number("no number".to_string())), "null");
}

#[test]
fn tools_have_names_of_their_own_and_require_their_properties() {
    let all = tools();
    let mut names: Vec<String> = all.iter().map(|t| text_at(t, "name")).collect();
    for tool in &all {
        let schema = tool.get("inputSchema").expect("a schema");
        let properties = schema.get("properties").expect("properties");
        if let Some(Json::Array(keys)) = schema.get("required") {
            for key in keys {
                assert!(properties.get(key.as_str().expect("a key")).is_some());
            }
        }
    }
    for name in &names {
        let unknown = format!("unknown tool '{name}'");
        assert_ne!(run_tool(name, &object(vec![])), Err(unknown));
    }
    assert_eq!(
        run_tool("xref_other", &object(vec![])),
        Err("unknown tool 'xref_other'".to_string())
    );
    names.sort();
    names.dedup();
    assert_eq!(names.len(), all.len());
}
