use xref_indexer::checksum::{checksum_bytes, file_symbols_checksum};
use xref_indexer::config::{
    file_parent, infer_common_index_root, infer_index_config_from_files, infer_index_root,
    load_index_config, save_index_config, IndexConfig,
};
use xref_indexer::cpp_parser::CppParser;
use xref_indexer::incremental::{
    apply_incremental_update, can_apply, IncrementalChecksumUpdate, IncrementalFileUpdate,
};
use xref_indexer::index::{Index, IndexBuilder};
use xref_indexer::language::ReferenceMode;
use xref_indexer::load::load_rows;
use xref_indexer::parser::Parser;
use xref_indexer::reindex::{apply_reindex, plan_reindex, FoundFile, ParsedUpdate};
use xref_indexer::rows::{FileRow, Tables};
use xref_indexer::save::{index_symbol_checksums, save_rows};
use xref_indexer::stream::StreamInsertState;
use xref_indexer::stream_order::{StreamOrder, StreamedFileSymbols};
use xref_indexer::types::FileSymbols;

fn parse(path: &str, source: &str) -> FileSymbols {
    CppParser::new_cpp_with_options(ReferenceMode::Calls, false)
        .parse_file(path, source)
        .expect("parsing should succeed")
}

fn build(files: &[(&str, &str)]) -> Index {
    let mut builder = IndexBuilder::new();
    for (path, source) in files {
        builder.add_file(parse(path, source));
    }
    builder.build()
}

fn tables_of(files: &[(&str, &str)]) -> Tables {
    let contents: Vec<Option<String>> = files
        .iter()
        .map(|(_, source)| Some(checksum_bytes(source.as_bytes())))
        .collect();
    save_rows(&build(files), &contents)
}

const A: &str = "namespace n { struct Base {}; int f(int x) { return x; } }\n";
const B: &str = "struct D : n::Base {};\nint g() { return n::f(1); }\nint h() { return g(); }\n";

#[test]
fn saved_rows_are_numbered_and_linked() {
    let t = tables_of(&[("a.cpp", A), ("b.cpp", B)]);
    assert_eq!(t.files.iter().map(|f| f.id).collect::<Vec<_>>(), vec![1, 2]);
    assert_eq!(t.files[0].path, "a.cpp");
    assert_eq!(t.files[1].checksum, Some(checksum_bytes(B.as_bytes())));
    assert_eq!(
        t.files[0].symbols_checksum,
        Some(file_symbols_checksum(&parse("a.cpp", A)))
    );
    for (i, d) in t.definitions.iter().enumerate() {
        assert_eq!(d.id, i as i64 + 1);
    }
    let id = |name: &str| {
        t.definitions
            .iter()
            .find(|d| d.qualified_name == name)
            .map(|d| d.id)
    };
    let call = t.calls.iter().find(|c| c.callee_name == "g").expect("a call of g");
    assert_eq!(call.caller_id, id("h"));
    assert_eq!(call.callee_id, id("g"));
    assert_eq!(call.file_id, Some(2));
    assert_eq!(t.inherits.len(), 1);
    assert_eq!(t.inherits[0].derived_id, id("D"));
}

#[test]
fn a_saved_index_is_loaded_again() {
    let index = build(&[("a.cpp", A), ("b.cpp", B)]);
    let t = save_rows(&index, &vec![None, None]);
    let loaded = load_rows(&t);
    assert_eq!(loaded.files().len(), 2);
    assert_eq!(loaded.files()[0].checksum, None);
    for (i, (a, b)) in index.definitions().iter().zip(loaded.definitions()).enumerate() {
        assert_eq!(b.id, Some(i as i64 + 1));
        assert_eq!(a.qualified_name, b.qualified_name);
        assert_eq!(a.kind, b.kind);
        assert_eq!(a.location, b.location);
        assert_eq!(a.parent, b.parent);
        assert_eq!(a.signature, b.signature);
        assert_eq!(a.visibility, b.visibility);
        assert_eq!(a.is_definition, b.is_definition);
    }
    for (a, b) in index.references().iter().zip(loaded.references()) {
        assert_eq!(a.name, b.name);
        assert_eq!(a.def_id, b.def_id);
        assert_eq!(a.location.line, b.location.line);
        assert_eq!(b.location.end_line, 0);
    }
    for (a, b) in index.inherits().iter().zip(loaded.inherits()) {
        assert_eq!(a.derived_name, b.derived_name);
        assert_eq!(a.base_name, b.base_name);
        assert_eq!(a.access, b.access);
        assert_eq!(b.location.line, 0);
        assert_eq!(a.location.file, b.location.file);
    }
    let again = save_rows(&loaded, &vec![None, None]);
    assert_eq!(again.definitions.len(), t.definitions.len());
    assert_eq!(again.calls.len(), t.calls.len());
    assert_eq!(
        again.files[0].symbols_checksum, t.files[0].symbols_checksum,
        "a stored fingerprint is kept"
    );
}

#[test]
fn unknown_names_and_files_are_loaded_with_defaults() {
    let mut t = tables_of(&[("a.cpp", A)]);
    t.definitions[0].kind = "mystery".to_string();
    t.definitions[0].visibility = "mystery".to_string();
    t.definitions[0].file_id = None;
    let loaded = load_rows(&t);
    let d = &loaded.definitions()[0];
    assert_eq!(d.kind.as_str(), "function");
    assert_eq!(d.visibility.as_str(), "public");
    assert_eq!(d.location.file, "");
}

#[test]
fn fingerprints_of_an_index_are_those_of_its_files() {
    let index = build(&[("a.cpp", A), ("b.cpp", B)]);
    assert_eq!(
        index_symbol_checksums(&index),
        vec![
            file_symbols_checksum(&parse("a.cpp", A)),
            file_symbols_checksum(&parse("b.cpp", B)),
        ]
    );
    assert_ne!(
        file_symbols_checksum(&parse("a.cpp", A)),
        file_symbols_checksum(&parse("a.cpp", "namespace n { int f(); }\n"))
    );
    assert_eq!(
        file_symbols_checksum(&parse("a.cpp", A)),
        file_symbols_checksum(&parse("a.cpp", &format!("{A}// a comment\n")))
    );
}

fn streamed(index: usize, path: &str, source: &str) -> StreamedFileSymbols {
    let symbols = parse(path, source);
    let symbols_checksum = file_symbols_checksum(&symbols);
    StreamedFileSymbols {
        index,
        symbols,
        checksum: checksum_bytes(source.as_bytes()),
        symbols_checksum,
    }
}

#[test]
fn streamed_files_are_released_in_order() {
    let mut order = StreamOrder::new();
    assert!(order.push(streamed(1, "b.cpp", B)).is_empty());
    assert_eq!(order.next_index(), 0);
    assert_eq!(
        order.finish(),
        Err("parser stream ended before file index 0; 1 parsed files are pending".to_string())
    );
    let out = order.push(streamed(0, "a.cpp", A));
    assert_eq!(out.iter().map(|f| f.index).collect::<Vec<_>>(), vec![0, 1]);
    assert_eq!(order.next_index(), 2);
    assert_eq!(order.finish(), Ok(()));
}

#[test]
fn streaming_writes_the_rows_that_saving_writes() {
    let mut state = StreamInsertState::new();
    let (file_a, definitions_a) = state.insert_file(streamed(0, "a.cpp", A));
    let (file_b, definitions_b) = state.insert_file(streamed(1, "b.cpp", B));
    let pending = state.pending_rows();
    let t = tables_of(&[("a.cpp", A), ("b.cpp", B)]);
    assert_eq!(format!("{:?}", vec![file_a, file_b]), format!("{:?}", t.files));
    let definitions: Vec<_> = definitions_a.into_iter().chain(definitions_b).collect();
    assert_eq!(format!("{definitions:?}"), format!("{:?}", t.definitions));
    assert_eq!(format!("{:?}", pending.refs), format!("{:?}", t.refs));
    assert_eq!(format!("{:?}", pending.calls), format!("{:?}", t.calls));
    assert_eq!(format!("{:?}", pending.inherits), format!("{:?}", t.inherits));
    assert_eq!(pending.metrics.definitions_inserted, t.definitions.len());
    assert_eq!(pending.metrics.references_inserted, t.refs.len());
    assert_eq!(pending.metrics.calls_inserted, t.calls.len());
    assert_eq!(pending.metrics.inheritance_inserted, t.inherits.len());
}

#[test]
fn an_empty_update_changes_nothing() {
    let mut t = tables_of(&[("a.cpp", A), ("b.cpp", B)]);
    let before = format!("{t:?}");
    let counts = apply_incremental_update(&mut t, &vec![], &vec![], &vec![]);
    assert_eq!(counts.definitions_inserted, 0);
    assert_eq!(format!("{t:?}"), before);
}

#[test]
fn a_changed_file_replaces_its_rows() {
    let mut t = tables_of(&[("a.cpp", A), ("b.cpp", B)]);
    let changed = "namespace n { struct Base {}; int f(int x) { return x; } int extra() { return f(2); } }\n";
    let symbols = parse("a.cpp", changed);
    let checksum = checksum_bytes(changed.as_bytes());
    let symbols_checksum = file_symbols_checksum(&symbols);
    let updates = vec![IncrementalFileUpdate {
        symbols: &symbols,
        checksum: &checksum,
        symbols_checksum: &symbols_checksum,
    }];
    assert!(can_apply(&t, &updates));
    let counts = apply_incremental_update(&mut t, &updates, &vec![], &vec![]);
    assert_eq!(counts.definitions_inserted, symbols.definitions.len());
    assert_eq!(t.files.len(), 2);
    assert_eq!(t.files[0].id, 1);
    assert_eq!(t.files[0].checksum, Some(checksum));
    let mut ids: Vec<i64> = t.definitions.iter().map(|d| d.id).collect();
    ids.sort();
    ids.dedup();
    assert_eq!(ids.len(), t.definitions.len());
    let f = t
        .definitions
        .iter()
        .find(|d| d.qualified_name == "n::f")
        .expect("n::f")
        .id;
    let call = t
        .calls
        .iter()
        .find(|c| c.caller_name == "n::extra")
        .expect("the new call");
    assert_eq!(call.callee_id, Some(f));
    for r in &t.refs {
        if let Some(id) = r.def_id {
            assert!(ids.contains(&id), "{r:?}");
        }
    }
    for c in &t.calls {
        for id in [c.caller_id, c.callee_id].into_iter().flatten() {
            assert!(ids.contains(&id), "{c:?}");
        }
    }
}

#[test]
fn a_removed_file_takes_its_rows_along() {
    let mut t = tables_of(&[("a.cpp", A), ("b.cpp", B)]);
    apply_incremental_update(&mut t, &vec![], &vec![], &vec!["a.cpp".to_string()]);
    assert_eq!(t.files.len(), 1);
    assert_eq!(t.files[0].path, "b.cpp");
    assert!(t.definitions.iter().all(|d| d.file_id == Some(2)));
    let ids: Vec<i64> = t.definitions.iter().map(|d| d.id).collect();
    for c in &t.calls {
        for id in [c.caller_id, c.callee_id].into_iter().flatten() {
            assert!(ids.contains(&id), "{c:?}");
        }
    }
    assert_eq!(t.inherits[0].base_id, None);
}

#[test]
fn checksums_alone_can_be_written() {
    let mut t = tables_of(&[("a.cpp", A), ("b.cpp", B)]);
    let rows = t.definitions.len();
    let updates = vec![
        IncrementalChecksumUpdate {
            path: "b.cpp",
            checksum: "new",
            symbols_checksum: "same",
        },
        IncrementalChecksumUpdate {
            path: "missing.cpp",
            checksum: "new",
            symbols_checksum: "same",
        },
    ];
    apply_incremental_update(&mut t, &vec![], &updates, &vec![]);
    assert_eq!(t.files[1].checksum.as_deref(), Some("new"));
    assert_eq!(t.files[1].symbols_checksum.as_deref(), Some("same"));
    assert_eq!(t.files.len(), 2);
    assert_eq!(t.definitions.len(), rows);
}

fn update<'a>(symbols: &'a FileSymbols, checksum: &'a str, symbols_checksum: &'a str) -> IncrementalFileUpdate<'a> {
    IncrementalFileUpdate {
        symbols,
        checksum,
        symbols_checksum,
    }
}

#[test]
fn uses_in_other_files_follow_a_definition_that_moves() {
    let user = "int user() { return moved(); }\n";
    let mut t = tables_of(&[("a.cpp", "int moved() { return 1; }\n"), ("u.cpp", user)]);
    let before = t.refs[0].def_id;
    assert_eq!(before, Some(1));
    let emptied = parse("a.cpp", "int stays;\n");
    let moved = parse("b.cpp", "int moved() { return 2; }\n");
    let updates = vec![update(&emptied, "1", "1"), update(&moved, "2", "2")];
    apply_incremental_update(&mut t, &updates, &vec![], &vec![]);
    let now = t
        .definitions
        .iter()
        .find(|d| d.qualified_name == "moved")
        .expect("the definition");
    assert_eq!(now.file_id, Some(3));
    assert_eq!(t.refs[0].name, "moved");
    assert_eq!(t.refs[0].def_id, Some(now.id));
    assert_eq!(t.calls[0].callee_id, Some(now.id));
}

#[test]
fn a_name_that_becomes_unique_is_linked() {
    // Two definitions make the simple name ambiguous; one of them leaves, and the use in the
    // other file has a meaning again.
    let two = "namespace p { void twin() {} } namespace q { void twin() {} }\n";
    let one = "namespace p { void twin() {} }\n";
    let mut t = tables_of(&[("a.cpp", two), ("u.cpp", "void user() { twin(); }\n")]);
    assert_eq!(t.refs[0].def_id, None);
    let changed = parse("a.cpp", one);
    apply_incremental_update(&mut t, &vec![update(&changed, "1", "1")], &vec![], &vec![]);
    let twins: Vec<i64> = t.definitions.iter().filter(|d| d.name == "twin").map(|d| d.id).collect();
    assert_eq!(twins.len(), 1);
    assert_eq!(t.refs[0].def_id, Some(twins[0]));

    let again = parse("a.cpp", two);
    apply_incremental_update(&mut t, &vec![update(&again, "2", "2")], &vec![], &vec![]);
    assert_eq!(t.refs[0].def_id, None);
}

#[test]
fn calls_of_unchanged_files_keep_both_ends() {
    let a = "int compute() { return 1; }\n";
    let b = "int main() { return compute(); }\n";
    let mut t = tables_of(&[("a.cpp", a), ("b.cpp", b)]);
    assert_eq!(t.calls.len(), 1);
    assert_eq!(t.calls[0].caller_id, Some(2));
    assert_eq!(t.calls[0].callee_id, Some(1));
    let same = parse("a.cpp", a);
    let m = apply_incremental_update(&mut t, &vec![update(&same, "1", "1")], &vec![], &vec![]);
    assert_eq!(m.definitions_inserted, 1);
    assert_eq!(t.calls[0].caller_id, Some(2));
    assert_eq!(t.calls[0].callee_id, Some(3));
    assert_eq!(t.files[0].checksum.as_deref(), Some("1"));
    assert_eq!(t.files[0].symbols_checksum.as_deref(), Some("1"));
}

const PROTOTYPED: &str = "int work(int x);
int work(int x) { return x; }
struct Base;
struct Base { int run(); };
int Base::run() { return work(1); }
struct Derived : Base {};
";

fn ids_of(t: &Tables, qualified_name: &str) -> Vec<i64> {
    t.definitions
        .iter()
        .filter(|d| d.qualified_name == qualified_name)
        .map(|d| d.id)
        .collect()
}

#[test]
fn calls_and_bases_are_linked_to_the_last_definition_of_a_name() {
    let t = tables_of(&[("a.cpp", PROTOTYPED)]);
    let works = ids_of(&t, "work");
    assert_eq!(works.len(), 2, "the prototype and the definition");
    let runs = ids_of(&t, "Base::run");
    assert_eq!(runs.len(), 2, "in the class and outside of it");
    let call = t.calls.iter().find(|c| c.callee_name == "work").expect("a call of work");
    assert_eq!(call.caller_name, "Base::run");
    assert_eq!(call.caller_id, Some(runs[1]));
    assert_eq!(call.callee_id, Some(works[1]));
    assert_eq!(t.inherits.len(), 1);
    assert_eq!(t.inherits[0].derived_id, ids_of(&t, "Derived").last().copied());
    assert_eq!(t.inherits[0].base_id, ids_of(&t, "Base").last().copied());
    let reference = t.refs.iter().find(|r| r.name == "work").expect("a reference to work");
    assert_eq!(reference.def_id, None, "a reference to one of two is left open");

    let index = build(&[("a.cpp", PROTOTYPED)]);
    assert_eq!(index.link_name("work").map(|id| id.0 as i64 + 1), Some(works[1]));
    assert_eq!(index.link_name("run"), None, "two go by the simple name");
    assert_eq!(index.link_name("nothing"), None);

    let mut state = StreamInsertState::new();
    state.insert_file(streamed(0, "a.cpp", PROTOTYPED));
    let pending = state.pending_rows();
    assert_eq!(format!("{:?}", pending.refs), format!("{:?}", t.refs));
    assert_eq!(format!("{:?}", pending.calls), format!("{:?}", t.calls));
    assert_eq!(format!("{:?}", pending.inherits), format!("{:?}", t.inherits));
}

#[test]
fn an_update_links_calls_to_the_greatest_number_of_a_name() {
    let files = [
        ("a.h", "int work(int x);\n"),
        ("b.cpp", "int work(int x) { return x; }\n"),
        ("c.cpp", "int user() { return work(2); }\n"),
    ];
    let mut t = tables_of(&files);
    assert_eq!(ids_of(&t, "work"), vec![1, 2]);
    assert_eq!(t.calls[0].callee_id, Some(2));
    assert_eq!(t.refs[0].def_id, None);

    let prototype = parse("a.h", "int work(int y);\n");
    apply_incremental_update(&mut t, &vec![update(&prototype, "1", "1")], &vec![], &vec![]);
    let works = ids_of(&t, "work");
    assert_eq!(works.len(), 2);
    assert_eq!(t.calls[0].callee_id, works.iter().max().copied());
    assert_eq!(t.calls[0].callee_id, Some(4), "the row that came last");
    assert_eq!(t.refs[0].def_id, None);

    apply_incremental_update(&mut t, &vec![], &vec![], &vec!["a.h".to_string()]);
    assert_eq!(ids_of(&t, "work"), vec![2]);
    assert_eq!(t.calls[0].callee_id, Some(2));
    assert_eq!(t.refs[0].def_id, Some(2));

    apply_incremental_update(&mut t, &vec![], &vec![], &vec!["b.cpp".to_string()]);
    assert_eq!(t.calls[0].callee_id, None);
}

fn found(files: &[(&str, &str)]) -> Vec<FoundFile> {
    files
        .iter()
        .map(|(path, source)| FoundFile {
            path: path.to_string(),
            checksum: checksum_bytes(source.as_bytes()),
        })
        .collect()
}

fn parsed_again(files: &[(&str, &str)], at: &[usize]) -> Vec<ParsedUpdate> {
    at.iter()
        .map(|i| ParsedUpdate {
            symbols: parse(files[*i].0, files[*i].1),
            checksum: checksum_bytes(files[*i].1.as_bytes()),
        })
        .collect()
}

#[test]
fn reindexing_parses_what_changed_and_settles() {
    let mut t = tables_of(&[("src/a.cpp", A), ("src/b.cpp", B), ("other/c.cpp", A)]);
    let roots = vec!["src".to_string()];
    let commented = format!("{A}// a comment\n");
    let now: Vec<(&str, &str)> = vec![("src/a.cpp", &commented), ("src/new.cpp", "int fresh;\n")];

    let plan = plan_reindex(&t.files, &roots, &found(&now));
    assert_eq!(plan.parse, vec![0, 1]);
    assert_eq!(plan.removed, vec!["src/b.cpp".to_string()]);

    let counts = apply_reindex(&mut t, &parsed_again(&now, &plan.parse), &plan.removed)
        .expect("the rows can be numbered");
    assert_eq!(counts.definitions_inserted, 1, "only the new file has new symbols");
    let paths: Vec<&str> = t.files.iter().map(|f| f.path.as_str()).collect();
    assert_eq!(paths, vec!["src/a.cpp", "other/c.cpp", "src/new.cpp"]);

    let plan = plan_reindex(&t.files, &roots, &found(&now));
    assert!(plan.parse.is_empty());
    assert!(plan.removed.is_empty());
}

#[test]
fn a_file_that_is_found_twice_is_parsed_once() {
    let t = tables_of(&[]);
    let now = vec![("src/a.cpp", A), ("src/a.cpp", A)];
    let plan = plan_reindex(&t.files, &vec!["src".to_string()], &found(&now));
    assert_eq!(plan.parse, vec![0]);
}

fn config() -> IndexConfig {
    IndexConfig {
        roots: vec!["src".to_string(), "lib".to_string()],
        language: "cpp".to_string(),
        follow_symlinks: true,
        reference_mode: "all".to_string(),
        include_reference_context: false,
    }
}

#[test]
fn configurations_are_stored_root_by_root() {
    let rows = save_index_config(&config());
    assert_eq!(rows.len(), 2);
    assert_eq!(rows[1].path, "lib");
    assert_eq!(rows[1].follow_symlinks, 1);
    assert_eq!(rows[1].include_reference_context, 0);
    let loaded = load_index_config(&rows).expect("a configuration");
    assert_eq!(format!("{loaded:?}"), format!("{:?}", config()));
    assert!(load_index_config(&vec![]).is_none());
}

#[test]
fn the_last_row_gives_the_switches() {
    let mut rows = save_index_config(&config());
    rows[1].language = "c".to_string();
    rows[1].follow_symlinks = 0;
    rows[1].include_reference_context = 7;
    let loaded = load_index_config(&rows).expect("a configuration");
    assert_eq!(loaded.language, "cpp");
    assert!(!loaded.follow_symlinks);
    assert!(loaded.include_reference_context);
}

fn texts(items: &[&str]) -> Vec<String> {
    items.iter().map(|s| s.to_string()).collect()
}

#[test]
fn roots_are_inferred_from_files() {
    assert_eq!(file_parent("src/a.cpp"), "src");
    assert_eq!(file_parent("a.cpp"), ".");
    assert_eq!(infer_common_index_root(&texts(&[])), None);
    assert_eq!(
        infer_common_index_root(&texts(&["src/a/x.cpp", "src/b/y.cpp"])),
        Some("src".to_string())
    );
    assert_eq!(
        infer_common_index_root(&texts(&["src/x.cpp", "lib/y.cpp"])),
        Some(".".to_string())
    );
    assert_eq!(
        infer_common_index_root(&texts(&["/p/x.cpp", "/q/y.cpp"])),
        Some("/".to_string())
    );
    assert_eq!(
        infer_common_index_root(&texts(&["src/ab/x.cpp", "src/a/y.cpp"])),
        Some("src".to_string())
    );
}

fn row(id: i64, path: &str, language: &str) -> FileRow {
    FileRow {
        id,
        path: path.to_string(),
        language: language.to_string(),
        checksum: None,
        symbols_checksum: None,
    }
}

#[test]
fn configurations_are_inferred_from_files() {
    let files = vec![
        row(1, "src/a.c", "c"),
        row(2, "src/b.cpp", "cpp"),
        row(3, "src/c.cpp", "cpp"),
    ];
    let config = infer_index_config_from_files(&files, true).expect("a configuration");
    assert_eq!(config.roots, texts(&["src"]));
    assert_eq!(config.language, "cpp");
    assert_eq!(config.reference_mode, "none");
    assert!(!config.follow_symlinks);
    assert!(infer_index_config_from_files(&files, false).is_none());
    let tie = vec![row(1, "src/a.c", "c"), row(2, "src/b.cpp", "cpp")];
    assert_eq!(
        infer_index_config_from_files(&tie, true).expect("a configuration").language,
        "cpp"
    );
    let apart = vec![row(1, "/p/a.c", "c"), row(2, "/q/b.c", "c")];
    assert_eq!(infer_index_root(&apart), None);
    assert!(infer_index_config_from_files(&apart, true).is_none());
    assert!(infer_index_config_from_files(&vec![], true).is_none());
}
