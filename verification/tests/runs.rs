use xref_indexer::cpp_parser::collect_symbols;
use xref_indexer::indexer::{
    build_index, can_merge, collect_batches, merge_batches, run_metrics, Indexer, NamedSource,
    ParsedFiles, PhaseTimes,
};
use xref_indexer::language::{Language, ReferenceMode};
use xref_indexer::responses::row_json;
use xref_indexer::json::Json;
use xref_indexer::save::can_save;
use xref_indexer::server::{query_json, unknown_database};
use xref_indexer::stream::StreamInsertState;
use xref_indexer::stream_order::StreamedFileSymbols;
use xref_indexer::syntax::{FieldName, NodeKind, Roles, SyntaxNode};
use xref_indexer::types::{FileSymbols, SymbolKind};

const FILES: [(&str, &str); 4] = [
    ("a.cpp", "int a;\n"),
    ("b.cpp", "int b;\n"),
    ("c.cpp", "int c;\n"),
    ("d.cpp", "int d;\n"),
];

fn batch(at: &[usize]) -> ParsedFiles {
    let parser = Language::Cpp.parser(ReferenceMode::Calls, false);
    let mut parsed = ParsedFiles::new();
    for i in at {
        let (path, source) = FILES[*i];
        assert_eq!(parsed.parse_next(&parser, *i, path, source.as_bytes()), Ok(false));
    }
    parsed
}

fn paths(batches: Vec<ParsedFiles>) -> Vec<String> {
    assert!(can_merge(&batches));
    let merged = merge_batches(batches);
    assert_eq!(merged.bytes_read, 28);
    for (i, file) in merged.files.iter().enumerate() {
        assert_eq!(file.index, i);
    }
    merged.files.into_iter().map(|f| f.symbols.file).collect()
}

#[test]
fn the_way_files_are_shared_among_workers_does_not_show() {
    let one = paths(vec![batch(&[0, 1, 2, 3])]);
    assert_eq!(one, vec!["a.cpp", "b.cpp", "c.cpp", "d.cpp"]);
    assert_eq!(paths(vec![batch(&[1, 3]), batch(&[0, 2])]), one);
    assert_eq!(paths(vec![batch(&[3]), batch(&[]), batch(&[2, 0, 1])]), one);
}

#[test]
fn workers_give_the_index_over_the_sources() {
    let sources: Vec<NamedSource> = FILES
        .iter()
        .map(|(path, source)| NamedSource { path: path.to_string(), source: source.to_string() })
        .collect();
    let index = Indexer::builder()
        .language(Language::Cpp)
        .reference_mode(ReferenceMode::Calls)
        .build()
        .index_sources(&sources)
        .expect("the sources can be parsed");
    for shares in [vec![vec![0, 1, 2, 3]], vec![vec![2, 3], vec![0, 1]], vec![vec![3], vec![1, 2], vec![0]]] {
        let batches: Vec<ParsedFiles> = shares.iter().map(|at| batch(at)).collect();
        let merged = merge_batches(batches);
        assert_eq!(merged.files.len(), sources.len());
        assert_eq!(merged.bytes_read, 28);
        let shared = build_index(merged.files);
        assert_eq!(shared.files().len(), index.files().len());
        for (a, b) in shared.files().iter().zip(index.files()) {
            assert_eq!(a.path, b.path);
        }
        assert_eq!(
            format!("{:?}", shared.definitions()),
            format!("{:?}", index.definitions())
        );
    }
}

#[test]
fn the_first_worker_that_fails_fails_the_run() {
    let failed = |m: &str| Err::<ParsedFiles, String>(m.to_string());
    let ok = collect_batches(vec![Ok(batch(&[1])), Ok(batch(&[0]))]).expect("both are done");
    assert_eq!(ok.iter().map(|b| b.files[0].index).collect::<Vec<_>>(), vec![1, 0]);
    let results = vec![Ok(batch(&[0])), failed("failed to read b.cpp"), failed("late")];
    assert_eq!(
        collect_batches(results).err(),
        Some("failed to read b.cpp".to_string())
    );
    assert!(collect_batches(vec![]).is_ok_and(|b| b.is_empty()));
}

#[test]
fn workers_count_bytes_and_replaced_texts() {
    let parser = Language::C.parser(ReferenceMode::Off, false);
    let mut parsed = ParsedFiles::new();
    assert_eq!(parsed.parse_next(&parser, 0, "a.c", b"int a;"), Ok(false));
    assert_eq!(parsed.parse_next(&parser, 1, "b.c", b"int b; // \xff"), Ok(true));
    assert_eq!(parsed.bytes_read, 17);
    assert_eq!(parsed.lossy_decoded_files, 1);
    assert_eq!(parsed.files[1].index, 1);
    let index = build_index(parsed.files);
    assert!(can_save(&index));
    let times = PhaseTimes {
        discover_ms: 1,
        parse_ms: 2,
        build_ms: 3,
        total_ms: 6,
    };
    let metrics = run_metrics(&index, 4, 2, 2, 17, 1, times);
    assert_eq!(metrics.definitions, 2);
    assert_eq!(metrics.threads, 4);
    assert_eq!(metrics.total_ms, 6);
    assert_eq!(metrics.lossy_decoded_files, 1);
}

#[test]
fn counts_that_do_not_fit_are_told() {
    let full = |bytes_read: u64, lossy_decoded_files: usize| ParsedFiles {
        files: Vec::new(),
        bytes_read,
        lossy_decoded_files,
    };
    assert!(can_merge(&vec![full(u64::MAX, 0), full(0, usize::MAX)]));
    assert!(!can_merge(&vec![full(u64::MAX, 0), full(1, 0)]));
    assert!(!can_merge(&vec![full(0, usize::MAX), full(0, 1)]));
    let file = |index: usize| StreamedFileSymbols {
        index,
        symbols: FileSymbols {
            file: "a.c".to_string(),
            language: "c".to_string(),
            definitions: vec![],
            references: vec![],
            calls: vec![],
            inherits: vec![],
        },
        checksum: String::new(),
        symbols_checksum: String::new(),
    };
    assert!(StreamInsertState::new().can_insert(&file(3)));
    assert!(!StreamInsertState::new().can_insert(&file(usize::MAX)));
}

/// A node over part of a single line.
fn node(kind: &str, from: usize, to: usize, roles: Roles, children: Vec<SyntaxNode>) -> SyntaxNode {
    SyntaxNode {
        kind: kind.to_string(),
        roles,
        start_byte: from,
        end_byte: to,
        start_row: 0,
        start_column: from,
        end_row: 0,
        end_column: to,
        children,
    }
}

#[test]
fn symbols_are_collected_from_any_tree() {
    let source = "#define LIMIT 5";
    let name = Roles { name: true, ..Roles::none() };
    let root = node(
        "translation_unit",
        0,
        15,
        Roles::none(),
        vec![node(
            "preproc_def",
            0,
            15,
            Roles::none(),
            vec![
                node("#define", 0, 7, Roles::none(), vec![]),
                node("identifier", 8, 13, name, vec![]),
            ],
        )],
    );
    let macro_node = &root.children[0];
    assert_eq!(macro_node.tag(), NodeKind::PreprocDef);
    let found = macro_node.child_by_field_name(FieldName::Name).expect("a name");
    assert_eq!(found.text(source), "LIMIT");
    assert!(macro_node.child_by_field_name(FieldName::Declarator).is_none());
    let symbols = collect_symbols("a.c", source, "c", &root, ReferenceMode::All, false);
    assert_eq!(symbols.definitions.len(), 1);
    assert_eq!(symbols.definitions[0].name, "LIMIT");
    assert_eq!(symbols.definitions[0].kind, SymbolKind::Macro);
    assert_eq!(symbols.definitions[0].location.line, 1);
    assert_eq!(symbols.definitions[0].location.column, 8);
    assert!(symbols.references.is_empty());
}

#[test]
fn query_rows_pair_columns_with_values() {
    let columns = vec!["a".to_string(), "b".to_string()];
    let row = row_json(&columns, vec![Json::Bool(true), Json::Null]);
    assert!(matches!(row.get("a"), Some(Json::Bool(true))));
    assert!(matches!(row.get("b"), Some(Json::Null)));
    let answer = query_json(&columns, vec![row]);
    assert!(matches!(answer.get("rows"), Some(Json::Array(rows)) if rows.len() == 1));
    assert_eq!(unknown_database("x"), "database 'x' not found");
}
