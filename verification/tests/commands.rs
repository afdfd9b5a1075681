use xref_indexer::args::{parse_args, parse_language, roots_from_args, ParsedArgs, DEFAULT_DB_PATH};
use xref_indexer::benchmark::{self, BenchmarkConfig, Measured, MeasuredSave};
use xref_indexer::cli::{
    benchmark_from_args, choose_reindex, config_of_indexer, expand_depth, expand_direction,
    expand_limit, indexer_from_args, indexer_of_config, parse_command, parse_context_target, reference_mode_name,
    sql_from_args, wants_help, Command, ReindexChoice,
};
use xref_indexer::config::IndexConfig;
use xref_indexer::expand::expand;
use xref_indexer::index::Index;
use xref_indexer::indexer::{IndexMetrics, Indexer, NamedSource};
use xref_indexer::json::Json;
use xref_indexer::language::{Language, ReferenceMode};
use xref_indexer::queries::{
    call_endpoint_defs, context_results, find_results, refs_for_query, search_results,
};
use xref_indexer::responses::{
    bench_response, context_response, endpoints_response, error_response, expand_response,
    find_response, hierarchy_response, index_response, place_response, refs_response,
    reindex_response, search_response, sql_response, stats_response, ReindexMetrics,
    ReindexReport,
};
use xref_indexer::snippet::make_snippet;
use xref_indexer::stream::StreamedDbWriteMetrics;

fn texts(items: &[&str]) -> Vec<String> {
    items.iter().map(|s| s.to_string()).collect()
}

fn parsed(items: &[&str]) -> ParsedArgs {
    parse_args(&texts(items)).expect("arguments")
}

#[test]
fn arguments_are_options_and_positionals() {
    let a = parsed(&["sym", "--db=x.db", "--limit", "5", "--pretty", "--name", "-h", "rest"]);
    assert_eq!(a.positionals, texts(&["sym", "rest"]));
    assert_eq!(a.value("db"), Some("x.db"));
    assert_eq!(a.value("limit"), Some("5"));
    assert_eq!(a.value("pretty"), Some("true"));
    assert_eq!(a.value("name"), Some("true"));
    assert!(a.bool_flag("help"));
    assert!(a.bool_flag("pretty"));
    assert!(!a.bool_flag("missing"));
    assert_eq!(a.limit(), 5);
    assert_eq!(a.db_path(), "x.db");
    assert_eq!(a.first_symbol(), Ok("sym"));
}

#[test]
fn arguments_that_cannot_be_read_are_refused() {
    assert_eq!(
        parse_args(&texts(&["--"])).map(|_| ()),
        Err("empty option '--'".to_string())
    );
    assert_eq!(
        parse_args(&texts(&["-x"])).map(|_| ()),
        Err("unsupported short option '-x'".to_string())
    );
    assert_eq!(
        parse_args(&texts(&["-"])).map(|_| ()),
        Err("unsupported short option '-'".to_string())
    );
}

#[test]
fn options_have_defaults_and_last_values() {
    let a = parsed(&["--root", "a", "--root=b", "--pretty=false", "--save=0", "--limit=x"]);
    assert_eq!(a.values("root"), texts(&["a", "b"]));
    assert_eq!(a.value("root"), Some("b"));
    assert!(!a.bool_flag("pretty"));
    assert!(!a.bool_flag("save"));
    assert_eq!(a.limit(), 20);
    assert_eq!(a.radius(), 3);
    assert_eq!(a.db_path(), DEFAULT_DB_PATH);
    assert_eq!(DEFAULT_DB_PATH, ".git/code-indexer/xrefs.sqlite3");
    assert_eq!(a.first_symbol(), Err("missing symbol name".to_string()));
    assert_eq!(a.required_value("line"), Err("missing required --line".to_string()));
    assert_eq!(a.threads(), None);
    assert_eq!(parsed(&["--radius", "7"]).radius(), 7);
    assert_eq!(parsed(&["--radius", "7", "--context", "x"]).radius(), 3);
    assert_eq!(parsed(&["--symbol", "s"]).first_symbol(), Ok("s"));
    assert_eq!(parsed(&["--symbol", "s", "--name", "n"]).first_symbol(), Ok("n"));
    assert_eq!(parsed(&["--threads", "4"]).threads(), Some(4));
}

#[test]
fn reference_modes_and_languages_have_names() {
    assert_eq!(parsed(&[]).reference_mode(), Ok(ReferenceMode::Calls));
    for name in ["none", "off", "false", "0"] {
        assert_eq!(parsed(&["--references", name]).reference_mode(), Ok(ReferenceMode::Off));
    }
    assert_eq!(parsed(&["--reference-mode", "full"]).reference_mode(), Ok(ReferenceMode::All));
    assert_eq!(parsed(&["--all-references"]).reference_mode(), Ok(ReferenceMode::All));
    assert_eq!(
        parsed(&["--references", "some"]).reference_mode(),
        Err("unsupported reference mode 'some'; use none, calls, or all".to_string())
    );
    assert_eq!(reference_mode_name(ReferenceMode::Off), "none");
    assert_eq!(parse_language(None), Ok(Language::Cpp));
    assert_eq!(parse_language(Some("C")), Ok(Language::C));
    assert_eq!(parse_language(Some("CC")), Ok(Language::Cpp));
    assert_eq!(
        parse_language(Some("Rust")),
        Err("unsupported language 'rust'; use c or cpp".to_string())
    );
}

#[test]
fn commands_have_names_and_other_names() {
    assert_eq!(parse_command("benchmark"), Ok(Command::Bench));
    assert_eq!(parse_command("definitions"), Ok(Command::Find));
    assert_eq!(parse_command("references"), Ok(Command::Refs));
    assert_eq!(parse_command("snippet"), Ok(Command::Context));
    assert_eq!(parse_command("query"), Ok(Command::Sql));
    assert_eq!(parse_command("reindex"), Ok(Command::Reindex));
    assert_eq!(parse_command("fly"), Err("unknown command 'fly'".to_string()));
    assert!(wants_help(&texts(&[])));
    assert!(wants_help(&texts(&["--help", "x"])));
    assert!(!wants_help(&texts(&["find", "help"])));
}

#[test]
fn runs_are_configured_by_arguments() {
    let a = parsed(&["--root", "a", "--path", "b", "c", "--language", "c", "--threads", "0",
        "--follow-symlinks", "--reference-context"]);
    // The last positional follows an option with a value.
    let x = indexer_from_args(&a, "index").expect("an indexer");
    assert_eq!(x.paths, texts(&["a", "b", "c"]));
    assert_eq!(x.language, Language::C);
    assert_eq!(x.threads, None);
    assert!(x.follow_symlinks);
    assert!(x.include_reference_context);
    assert_eq!(x.reference_mode, ReferenceMode::Calls);
    let config = config_of_indexer(&x);
    assert_eq!(config.language, "c");
    assert_eq!(config.reference_mode, "calls");
    let again = indexer_of_config(&config, Some(0)).expect("an indexer");
    assert_eq!(again.paths, x.paths);
    assert_eq!(again.language, Language::C);
    assert_eq!(again.threads, None);
    assert_eq!(again.reference_mode, ReferenceMode::Calls);
    assert!(again.follow_symlinks && again.include_reference_context);
    let wrong = IndexConfig { reference_mode: "some".to_string(), ..config_of_indexer(&x) };
    assert_eq!(
        indexer_of_config(&wrong, None).map(|_| ()),
        Err("unsupported reference mode 'some'; use none, calls, or all".to_string())
    );
    let wrong = IndexConfig { language: "Go".to_string(), ..config_of_indexer(&x) };
    assert_eq!(
        indexer_of_config(&wrong, None).map(|_| ()),
        Err("unsupported language 'go'; use c or cpp".to_string())
    );
    assert_eq!(
        roots_from_args(&parsed(&[]), "index"),
        Err("index requires at least one --root PATH or positional PATH".to_string())
    );
    assert_eq!(
        indexer_from_args(&parsed(&["a", "--language", "go"]), "index").map(|_| ()),
        Err("unsupported language 'go'; use c or cpp".to_string())
    );
}

#[test]
fn benchmarks_save_only_where_asked() {
    let bench = |items: &[&str]| benchmark_from_args(&parsed(items)).expect("a benchmark").db_path;
    assert_eq!(bench(&["a"]), None);
    assert_eq!(bench(&["a", "--db", "x.db"]), Some("x.db".to_string()));
    assert_eq!(bench(&["a", "--save"]), Some(DEFAULT_DB_PATH.to_string()));
    assert_eq!(bench(&["a", "--db", "x.db", "--no-save"]), None);
    assert_eq!(
        benchmark_from_args(&parsed(&[])).map(|_| ()),
        Err("benchmark requires at least one --root PATH or positional PATH".to_string())
    );
}

fn metrics() -> IndexMetrics {
    IndexMetrics {
        threads: 1,
        files_discovered: 2,
        files_indexed: 2,
        bytes_read: 10,
        lossy_decoded_files: 0,
        definitions: 3,
        references: 4,
        calls: 5,
        inheritance_edges: 6,
        discover_ms: 7,
        parse_ms: 8,
        build_ms: 9,
        total_ms: 30,
    }
}

#[test]
fn benchmarks_report_what_was_measured() {
    let empty = BenchmarkConfig::default();
    assert_eq!(empty.reference_mode, ReferenceMode::Off);
    assert_eq!(empty.indexer().map(|_| ()), Err("benchmark requires at least one root".to_string()));
    let config = || BenchmarkConfig {
        roots: texts(&["src"]),
        threads: Some(2),
        db_path: Some("x.db".to_string()),
        ..BenchmarkConfig::default()
    };
    let x = config().indexer().expect("an indexer");
    assert_eq!(x.paths, texts(&["src"]));
    assert_eq!(x.threads, Some(2));
    let writer = StreamedDbWriteMetrics {
        setup_ms: 1,
        streamed_files_and_definitions_ms: 2,
        pending_edges_ms: 3,
        commit_ms: 4,
        create_indexes_ms: 5,
        finalize_ms: 6,
        total_ms: 21,
    };
    let measured = Measured {
        index: metrics(),
        save: Some(MeasuredSave { save_ms: 22, writer, db_bytes: Some(4096) }),
    };
    let report = benchmark::run(config(), Ok(measured), 60).expect("a report");
    assert_eq!(report.total_ms, 60);
    assert_eq!(report.language, "cpp");
    let save = report.save.as_ref().expect("a save");
    assert_eq!(save.db, "x.db");
    assert_eq!(save.writer, Some(writer));
    assert_eq!(
        benchmark::run(config(), Err("boom".to_string()), 1).map(|_| ()),
        Err("benchmark streamed index failed for 'x.db': boom".to_string())
    );
    let unsaved = BenchmarkConfig { db_path: None, ..config() };
    assert_eq!(
        benchmark::run(unsaved, Err("boom".to_string()), 1).map(|_| ()),
        Err("benchmark index failed: boom".to_string())
    );
    let answer = bench_response(&report);
    let shown = answer.get("report").expect("a report");
    assert_eq!(text_at(shown, "reference_mode"), "None");
    assert_eq!(number_at(shown.get("save").expect("a save"), "db_bytes"), "4096");
}

fn text_at(j: &Json, name: &str) -> String {
    j.get(name)
        .and_then(|v| v.as_str())
        .unwrap_or_else(|| panic!("no text {name}"))
        .to_string()
}

fn number_at(j: &Json, name: &str) -> String {
    match j.get(name) {
        Some(Json::Number(s)) => s.clone(),
        _ => panic!("no number {name}"),
    }
}

fn items_at<'a>(j: &'a Json, name: &str) -> &'a Vec<Json> {
    match j.get(name) {
        Some(Json::Array(items)) => items,
        _ => panic!("no list {name}"),
    }
}

#[test]
fn places_and_walks_are_read_from_arguments() {
    assert_eq!(parse_context_target(&parsed(&["sym"])), Ok(None));
    assert_eq!(
        parse_context_target(&parsed(&["--file", "a.c", "--line", "3"])),
        Ok(Some(("a.c".to_string(), 3)))
    );
    assert_eq!(
        parse_context_target(&parsed(&["--file", "a.c"])),
        Err("missing required --line".to_string())
    );
    assert_eq!(
        parse_context_target(&parsed(&["--file", "a.c", "--line", "x"])),
        Err("--line must be a positive integer".to_string())
    );
    let a = parsed(&["s", "--depth", "0", "--limit", "0", "--direction", "callers"]);
    assert_eq!(expand_depth(&a), 1);
    assert_eq!(expand_limit(&a), 1);
    assert_eq!(expand_direction(&a), "callers");
    assert_eq!(expand_direction(&parsed(&[])), "both");
    assert_eq!(expand_depth(&parsed(&["--depth", "4"])), 4);
}

#[test]
fn only_reading_queries_are_run() {
    assert_eq!(
        sql_from_args(&parsed(&["SELECT", "1"])),
        Ok("SELECT 1".to_string())
    );
    assert_eq!(
        sql_from_args(&parsed(&["--sql", " \n with x as (select 1) select * from x"])),
        Ok(" \n with x as (select 1) select * from x".to_string())
    );
    assert_eq!(sql_from_args(&parsed(&["--query", "Pragma user_version"])).is_ok(), true);
    let refused = "sql command is read-only; query must start with SELECT, WITH, or PRAGMA";
    assert_eq!(
        sql_from_args(&parsed(&["--sql", "DELETE FROM files"])),
        Err(refused.to_string())
    );
    assert_eq!(sql_from_args(&parsed(&["selected"])), Err(refused.to_string()));
    let missing = "sql requires --sql QUERY or a positional SQL string";
    assert_eq!(sql_from_args(&parsed(&[])), Err(missing.to_string()));
    assert_eq!(sql_from_args(&parsed(&["--sql", "  "])), Err(missing.to_string()));
}

fn config(root: &str) -> IndexConfig {
    IndexConfig {
        roots: texts(&[root]),
        language: "c".to_string(),
        follow_symlinks: true,
        reference_mode: "all".to_string(),
        include_reference_context: true,
    }
}

#[test]
fn queries_choose_what_to_bring_up_to_date() {
    let choose = |items: &[&str], saved: bool, inferred: bool| {
        choose_reindex(
            &parsed(items),
            saved.then(|| config("saved")),
            inferred.then(|| config("inferred")),
        )
    };
    match choose(&["--no-reindex"], true, true) {
        ReindexChoice::Skip { reason } => assert_eq!(reason, "disabled"),
        other => panic!("{other:?}"),
    }
    match choose(&[], false, false) {
        ReindexChoice::Skip { reason } => assert_eq!(reason, "no_saved_roots"),
        other => panic!("{other:?}"),
    }
    match choose(&[], true, true) {
        ReindexChoice::Run { source, config, store } => {
            assert!(!store);
            assert_eq!(source, "saved_config");
            assert_eq!(config.roots, texts(&["saved"]));
        }
        other => panic!("{other:?}"),
    }
    match choose(&[], false, true) {
        ReindexChoice::Run { source, config, store } => {
            assert!(store);
            assert_eq!(source, "inferred_config");
            assert_eq!(config.roots, texts(&["inferred"]));
        }
        other => panic!("{other:?}"),
    }
    match choose(&["--root", "here"], true, false) {
        ReindexChoice::Run { source, config, store } => {
            assert!(!store);
            assert_eq!(source, "arguments");
            assert_eq!(config.roots, texts(&["here"]));
            assert_eq!(config.language, "c");
            assert_eq!(config.reference_mode, "all");
        }
        other => panic!("{other:?}"),
    }
    match choose(&["--root", "here"], false, false) {
        ReindexChoice::Run { config, .. } => assert_eq!(config.language, "cpp"),
        other => panic!("{other:?}"),
    }
}

fn sample() -> Index {
    Indexer::builder()
        .language(Language::Cpp)
        .build()
        .index_sources(&vec![NamedSource {
            path: "x.cpp".to_string(),
            source: "namespace n { void leaf() {} void mid() { leaf(); } void top() { mid(); mid(); } }
namespace m { void leaf() {} void leafless() {} }
void user() { n::leaf(); leaf(); }
struct B {}; struct D : B {};
"
            .to_string(),
        }])
        .expect("indexing should succeed")
}

fn names(defs: &[&xref_indexer::types::Definition]) -> Vec<String> {
    defs.iter().map(|d| d.qualified_name.clone()).collect()
}

#[test]
fn find_lists_exact_results_first() {
    let ix = sample();
    assert_eq!(names(&find_results(&ix, "n::leaf", false, 20)), texts(&["n::leaf"]));
    assert_eq!(
        names(&find_results(&ix, "leaf", false, 20)),
        texts(&["n::leaf", "m::leaf"])
    );
    assert_eq!(
        names(&find_results(&ix, "leaf", true, 20)),
        texts(&["n::leaf", "m::leaf", "m::leafless"])
    );
    assert_eq!(names(&find_results(&ix, "leafl", false, 20)), texts(&["m::leafless"]));
    assert_eq!(names(&find_results(&ix, "leaf", true, 1)), texts(&["n::leaf"]));
    assert!(find_results(&ix, "leaf", true, 0).is_empty());
    assert_eq!(search_results(&ix, "LEAF", 2).len(), 2);
    assert_eq!(context_results(&ix, "leaf", 1).len(), 1);
}

#[test]
fn callers_and_callees_are_listed_once() {
    let ix = sample();
    assert_eq!(names(&call_endpoint_defs(&ix, "mid", true, 20)), texts(&["n::top"]));
    assert_eq!(names(&call_endpoint_defs(&ix, "n::mid", true, 20)), texts(&["n::top"]));
    assert_eq!(names(&call_endpoint_defs(&ix, "n::top", false, 20)), texts(&["n::mid"]));
    assert_eq!(call_endpoint_defs(&ix, "leaf", true, 0).len(), 1);
    assert!(call_endpoint_defs(&ix, "nothing", true, 20).is_empty());
}

#[test]
fn references_are_listed_by_name_and_last_part() {
    let ix = sample();
    let uses = refs_for_query(&ix, "x::leaf", 20);
    assert!(!uses.is_empty());
    assert!(uses.iter().all(|r| r.name == "leaf" || r.name == "x::leaf"));
    let places: Vec<(usize, usize)> =
        uses.iter().map(|r| (r.location.line, r.location.column)).collect();
    let mut distinct = places.clone();
    distinct.sort();
    distinct.dedup();
    assert_eq!(places.len(), distinct.len());
    assert_eq!(refs_for_query(&ix, "leaf", 1).len(), 1);
}

fn walked() -> Index {
    Indexer::builder()
        .language(Language::Cpp)
        .build()
        .index_sources(&vec![NamedSource {
            path: "w.cpp".to_string(),
            source: "void leaf() {} void mid() { leaf(); } void top() { mid(); }
namespace n { void low() {} void inner() { low(); } void outer() { inner(); } }
"
            .to_string(),
        }])
        .expect("indexing should succeed")
}

#[test]
fn the_call_graph_is_walked_level_by_level() {
    let ix = walked();
    let steps = |seed: &str, direction: &str, depth: usize, limit: usize| {
        expand(&ix, seed, direction, depth, limit)
            .iter()
            .map(|e| (e.call.caller_name.clone(), e.call.callee_name.clone(), e.depth))
            .collect::<Vec<_>>()
    };
    let step = |from: &str, to: &str, depth: usize| (from.to_string(), to.to_string(), depth);
    assert_eq!(
        steps("leaf", "callers", 2, 20),
        vec![step("mid", "leaf", 1), step("top", "mid", 2)]
    );
    assert_eq!(steps("leaf", "callers", 1, 20), vec![step("mid", "leaf", 1)]);
    assert_eq!(steps("leaf", "callers", 2, 1), vec![step("mid", "leaf", 1)]);
    assert_eq!(
        steps("top", "callees", 5, 20),
        vec![step("top", "mid", 1), step("mid", "leaf", 2)]
    );
    assert_eq!(steps("mid", "both", 1, 20).len(), 2);
    assert!(steps("top", "sideways", 5, 20).is_empty());
    assert!(steps("nothing", "both", 5, 20).is_empty());
}

#[test]
fn a_walk_up_stops_where_calls_name_less_than_the_caller() {
    // The frontier holds "n::inner", and the call of it is recorded as "inner".
    let ix = walked();
    let edges = expand(&ix, "n::low", "callers", 5, 20);
    assert_eq!(edges.len(), 1);
    assert_eq!(edges[0].call.caller_name, "n::inner");
}

fn skipped() -> ReindexReport {
    ReindexReport::Skipped { reason: "disabled" }
}

fn reindexed() -> ReindexMetrics {
    ReindexMetrics {
        files_discovered: 10,
        files_indexed: 1,
        files_removed: 2,
        definitions_inserted: 3,
        references_inserted: 4,
        calls_inserted: 5,
        inheritance_inserted: 6,
        discover_ms: 7,
        checksum_ms: 8,
        parse_ms: 9,
        db_ms: 10,
        total_ms: 34,
    }
}

#[test]
fn answers_show_results_with_rank_and_confidence() {
    let ix = sample();
    let defs = find_results(&ix, "leaf", true, 20);
    let source = "a\nb\nc\n";
    let snippets = vec![make_snippet("x.cpp", source, 1, 1), None];
    let answer = find_response("x.db", "leaf", &defs, &snippets, &skipped());
    assert_eq!(text_at(&answer, "command"), "find");
    assert_eq!(number_at(&answer, "result_count"), "3");
    let results = items_at(&answer, "results");
    assert_eq!(number_at(&results[2], "rank"), "3");
    assert_eq!(text_at(&results[0], "confidence"), "exact_simple");
    assert_eq!(text_at(&results[2], "confidence"), "substring");
    let definition = results[0].get("definition").expect("a definition");
    assert_eq!(text_at(definition, "qualified_name"), "n::leaf");
    assert_eq!(text_at(definition, "kind"), "function");
    assert_eq!(
        number_at(definition.get("location").expect("a place"), "line"),
        "1"
    );
    let snippet = results[0].get("snippet").expect("a snippet");
    assert_eq!(text_at(snippet, "text"), ">     1: a\n      2: b\n");
    assert!(matches!(results[1].get("snippet"), Some(Json::Null)));
    assert!(matches!(results[2].get("snippet"), Some(Json::Null)));
    let reindex = answer.get("reindex").expect("how it was brought up to date");
    assert!(matches!(reindex.get("checked"), Some(Json::Bool(false))));
    assert_eq!(text_at(reindex, "reason"), "disabled");
    let exact = find_response("x.db", "n::leaf", &find_results(&ix, "n::leaf", false, 1),
        &vec![], &skipped());
    assert_eq!(text_at(&items_at(&exact, "results")[0], "confidence"), "exact_qualified");
}

#[test]
fn every_command_has_an_answer() {
    let ix = sample();
    let none = vec![];
    let report = ReindexReport::Checked { source: "saved_config", metrics: reindexed() };
    let stats = stats_response("x.db", &ix, &report);
    assert_eq!(text_at(&items_at(&stats, "files")[0], "path"), "x.cpp");
    assert_eq!(number_at(stats.get("summary").expect("a summary"), "inheritance_edges"), "1");
    let reindex = stats.get("reindex").expect("how it was brought up to date");
    assert_eq!(text_at(reindex, "source"), "saved_config");
    assert_eq!(number_at(reindex.get("metrics").expect("metrics"), "files_discovered"), "10");
    let search = search_response("x.db", "leaf", &search_results(&ix, "leaf", 9), &none, &skipped());
    assert_eq!(text_at(&search, "command"), "search");
    let refs = refs_response("x.db", "leaf", &refs_for_query(&ix, "leaf", 9), &none, &skipped());
    let first = &items_at(&refs, "results")[0];
    assert_eq!(text_at(first, "confidence"), "unresolved_name");
    let callers = call_endpoint_defs(&ix, "mid", true, 9);
    let callers = endpoints_response("callers", "x.db", "mid", &callers, &none, &skipped());
    assert_eq!(
        text_at(&items_at(&callers, "results")[0], "confidence"),
        "structural_call_endpoint"
    );
    let hierarchy =
        hierarchy_response("x.db", "D", &ix.class_hierarchy("D"), &none, &none, &skipped());
    assert_eq!(
        text_at(&items_at(&hierarchy, "bases")[0], "confidence"),
        "inheritance_edge"
    );
    assert!(items_at(&hierarchy, "derived").is_empty());
    let context = context_response("x.db", "D", &context_results(&ix, "D", 9), &none, &skipped());
    assert_eq!(number_at(&context, "result_count"), "1");
    let place = place_response("x.cpp", 3, &None);
    assert_eq!(number_at(place.get("target").expect("a target"), "line"), "3");
    assert!(matches!(place.get("snippet"), Some(Json::Null)));
    let edges = expand(&ix, "n::leaf", "both", 1, 9);
    let expanded = expand_response("x.db", "n::leaf", "both", 1, &edges, &none, &skipped());
    assert_eq!(
        text_at(&items_at(&expanded, "edges")[0], "confidence"),
        "structural_call"
    );
    let sql = sql_response("x.db", &texts(&["n"]), vec![Json::Null], &skipped());
    assert_eq!(number_at(&sql, "row_count"), "1");
    let indexed = index_response("x.db", &texts(&["src"]), Language::Cpp, &ix, &metrics(), 12);
    assert_eq!(number_at(&indexed, "total_ms"), "42");
    assert_eq!(text_at(&indexed, "language"), "cpp");
    let updated = reindex_response("x.db", &texts(&["src"]), "cpp", &reindexed());
    assert_eq!(number_at(updated.get("metrics").expect("metrics"), "files_removed"), "2");
    let failed = error_response("no");
    assert!(matches!(failed.get("ok"), Some(Json::Bool(false))));
    assert_eq!(text_at(&failed, "error"), "no");
}
