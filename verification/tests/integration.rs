use xref_indexer::index::Index;
use xref_indexer::indexer::{Indexer, NamedSource};
use xref_indexer::language::Language;
use xref_indexer::load::load_rows;
use xref_indexer::save::save_rows;
use xref_indexer::schema;
use xref_indexer::types::{SymbolKind, Visibility};

const HEADER: &str = "#ifndef DEMO_H
#define DEMO_H
#define MAX_SIZE 100

namespace demo {

enum Color { RED, GREEN, BLUE };

class Base {
public:
    Base() : value(0) {}
    virtual ~Base() {}
    virtual void run();
    int get() const { return value; }

protected:
    int value;
};

class Derived : public Base {
public:
    Derived();
    void run() override;

private:
    int extra_data;
};

extern int global_counter;
int compute(int x, int y);

}  // namespace demo
#endif
";

const SOURCE: &str = "#include \"demo.h\"

namespace demo {

int global_counter = 0;

int compute(int x, int y) {
    return x + y;
}

Derived::Derived() : extra_data(0) {}

void Derived::run() {
    int before = get();
    int result = compute(before, MAX_SIZE);
    global_counter = result + get() + get() + get();
}

}  // namespace demo

int main() {
    demo::Derived d;
    d.run();
    d.run();
    demo::global_counter = compute(1, 2);
    d.get();
    d.get();
    d.get();
    return 0;
}
";

fn sources() -> Vec<NamedSource> {
    vec![
        NamedSource {
            path: "tests/fixtures/demo.h".to_string(),
            source: HEADER.to_string(),
        },
        NamedSource {
            path: "tests/fixtures/demo.cpp".to_string(),
            source: SOURCE.to_string(),
        },
    ]
}

fn fixture_index() -> Index {
    Indexer::builder()
        .add_directory("tests/fixtures")
        .language(Language::Cpp)
        .build()
        .index_sources(&sources())
        .expect("indexing should succeed")
}

#[test]
fn test_index_cpp_fixtures() {
    let index = fixture_index();

    let all_defs: Vec<_> = index.definitions().iter().collect();
    let def_names: Vec<&str> = all_defs.iter().map(|d| d.qualified_name.as_str()).collect();

    assert!(
        def_names.contains(&"MAX_SIZE"),
        "expected MAX_SIZE macro; got: {def_names:?}"
    );

    let has_namespace = def_names
        .iter()
        .any(|n| *n == "demo" || n.ends_with("::demo") || n.starts_with("demo::"));
    assert!(has_namespace, "expected demo namespace; got: {def_names:?}");

    let has_base = def_names.iter().any(|n| n.contains("Base"));
    let has_derived = def_names.iter().any(|n| n.contains("Derived"));
    assert!(has_base, "expected Base class; got: {def_names:?}");
    assert!(has_derived, "expected Derived class; got: {def_names:?}");

    let has_color = def_names
        .iter()
        .any(|n| n.ends_with("::Color") || *n == "Color");
    assert!(has_color, "expected Color enum; got: {def_names:?}");
    for variant in &["RED", "GREEN", "BLUE"] {
        let found = all_defs
            .iter()
            .any(|d| d.name == *variant && d.kind == SymbolKind::EnumVariant);
        assert!(found, "expected enum variant {variant}");
    }

    let has_global = def_names
        .iter()
        .any(|n| n.ends_with("::global_counter") || *n == "global_counter");
    assert!(has_global, "expected global_counter; got: {def_names:?}");

    let has_compute = def_names
        .iter()
        .any(|n| n.ends_with("::compute") || *n == "compute");
    assert!(has_compute, "expected compute function; got: {def_names:?}");

    let run_defs: Vec<_> = all_defs.iter().filter(|d| d.name == "run").collect();
    assert!(!run_defs.is_empty(), "expected run method(s)");

    let ctor_defs: Vec<_> = all_defs
        .iter()
        .filter(|d| d.kind == SymbolKind::Constructor)
        .collect();
    assert!(!ctor_defs.is_empty(), "expected constructor(s)");

    let inherits = index.inherits();
    let derived_from_base = inherits
        .iter()
        .any(|inh| inh.derived_name == "Derived" && inh.base_name == "Base");
    assert!(
        derived_from_base,
        "expected Derived -> Base inheritance; got: {inherits:?}"
    );

    let calls = index.calls();
    assert!(!calls.is_empty(), "expected some call edges");

    let refs = index.references();
    assert!(!refs.is_empty(), "expected some references");

    let resolved_refs: Vec<_> = refs.iter().filter(|r| r.def_id.is_some()).collect();
    println!(
        "Stats: {} defs, {} refs ({} resolved), {} calls, {} inherits",
        all_defs.len(),
        refs.len(),
        resolved_refs.len(),
        calls.len(),
        inherits.len(),
    );

    assert!(
        all_defs.len() >= 15,
        "expected at least 15 definitions, got {}",
        all_defs.len()
    );
    assert!(
        refs.len() >= 10,
        "expected at least 10 references, got {}",
        refs.len()
    );
}

#[test]
fn test_search_symbols() {
    let index = fixture_index();

    let results = index.search_symbols("compute");
    assert!(
        !results.is_empty(),
        "search for 'compute' should return results"
    );
    assert!(results.iter().any(|d| d.name == "compute"));

    let results = index.search_symbols("nonexistent_xyzzy");
    assert!(results.is_empty());
}

#[test]
fn test_call_graph_uses_function_callers_and_keeps_call_references() {
    let index = fixture_index();

    assert!(
        index
            .calls()
            .iter()
            .any(|c| c.caller_name == "demo::Derived::run" && c.callee_name == "compute"),
        "expected Derived::run -> compute call; got: {:?}",
        index.calls()
    );
    assert!(
        index
            .calls()
            .iter()
            .any(|c| c.caller_name == "main" && c.callee_name == "compute"),
        "expected main -> compute call; got: {:?}",
        index.calls()
    );

    let callers: Vec<String> = index
        .find_callers("compute")
        .iter()
        .map(|d| d.qualified_name.clone())
        .collect();
    assert!(
        callers.contains(&"demo::Derived::run".to_string()),
        "expected compute caller demo::Derived::run; got: {callers:?}"
    );
    assert!(
        callers.contains(&"main".to_string()),
        "expected compute caller main; got: {callers:?}"
    );

    let callees: Vec<String> = index
        .find_callees("demo::Derived::run")
        .iter()
        .map(|d| d.name.clone())
        .collect();
    assert!(
        callees.contains(&"compute".to_string()),
        "expected demo::Derived::run callee compute; got: {callees:?}"
    );

    let compute_ref_lines: Vec<usize> = index
        .find_references("compute")
        .iter()
        .map(|r| r.location.line)
        .collect();
    assert!(
        compute_ref_lines.contains(&15) && compute_ref_lines.contains(&25),
        "expected compute call references on lines 15 and 25; got: {compute_ref_lines:?}"
    );
}

#[test]
fn test_scoped_methods_constructors_signatures_and_inheritance() {
    let index = fixture_index();
    let definitions = index.definitions();

    assert!(
        definitions.iter().any(|d| {
            d.qualified_name == "demo::Derived::run"
                && d.kind == SymbolKind::Method
                && d.is_definition
        }),
        "expected out-of-class method definition demo::Derived::run; got: {:?}",
        definitions
            .iter()
            .filter(|d| d.name == "run")
            .collect::<Vec<_>>()
    );
    assert!(
        !definitions.iter().any(|d| d.qualified_name == "demo::run"),
        "out-of-class method should not be indexed as demo::run"
    );
    assert!(
        definitions.iter().any(|d| {
            d.qualified_name == "demo::Base::Base" && d.kind == SymbolKind::Constructor
        }),
        "expected inline constructor demo::Base::Base"
    );
    assert!(
        !definitions
            .iter()
            .any(|d| d.qualified_name == "demo::Derived::run" && d.kind == SymbolKind::Constructor),
        "ordinary method run must not be classified as a constructor"
    );

    let compute_def = definitions
        .iter()
        .find(|d| d.name == "compute" && d.is_definition)
        .expect("expected compute definition");
    let signature = compute_def
        .signature
        .as_ref()
        .expect("compute definition should have a signature");
    assert!(
        signature.contains("int compute(int x, int y)") && !signature.contains("return"),
        "signature should contain the function header but not the body; got: {signature:?}"
    );

    let inheritance = index
        .inherits()
        .iter()
        .find(|inh| inh.derived_name == "Derived" && inh.base_name == "Base")
        .expect("expected Derived -> Base inheritance");
    assert_eq!(
        inheritance.access,
        Visibility::Public,
        "class Derived : public Base should be public"
    );
}

fn columns_of(conn: &rusqlite::Connection, table: &str) -> Vec<String> {
    let mut stmt = conn
        .prepare(&format!("PRAGMA table_info({table})"))
        .expect("read table info");
    let columns: Vec<String> = stmt
        .query_map([], |row| row.get(1))
        .expect("query table info")
        .map(|row| row.expect("column name"))
        .collect();
    columns
}

#[test]
fn test_create_schema_adds_parent_name_to_legacy_schema() {
    let conn = rusqlite::Connection::open_in_memory().expect("open legacy db");
    conn.execute_batch(
        "
        CREATE TABLE definitions (
            id INTEGER PRIMARY KEY AUTOINCREMENT,
            name TEXT NOT NULL,
            qualified_name TEXT NOT NULL,
            kind TEXT NOT NULL,
            file_id INTEGER,
            line INTEGER NOT NULL,
            column INTEGER NOT NULL,
            end_line INTEGER NOT NULL DEFAULT 0,
            end_column INTEGER NOT NULL DEFAULT 0,
            parent_id INTEGER REFERENCES definitions(id),
            signature TEXT,
            visibility TEXT NOT NULL DEFAULT 'public',
            is_definition INTEGER NOT NULL DEFAULT 1,
            extra TEXT
        );
        ",
    )
    .expect("create legacy definitions table");

    conn.execute_batch(schema::CREATE_TABLES)
        .expect("create missing tables");
    let statements = schema::column_migrations(
        &columns_of(&conn, "definitions"),
        &columns_of(&conn, "files"),
        &columns_of(&conn, "inheritance"),
    );
    assert_eq!(statements, vec![schema::ADD_PARENT_NAME]);
    for statement in statements {
        conn.execute_batch(statement)
            .expect("schema migration should succeed");
    }
    conn.execute_batch(schema::CREATE_INDEXES)
        .expect("create lookup structures");

    let columns = columns_of(&conn, "definitions");
    assert!(
        columns.iter().any(|c| c == "parent_name"),
        "expected parent_name in migrated schema; got: {columns:?}"
    );
}

#[test]
fn test_save_and_load_db() {
    let index = fixture_index();

    let contents = vec![None, None];
    let tables = save_rows(&index, &contents);
    let loaded = load_rows(&tables);

    assert_eq!(
        loaded.definition_count(),
        index.definition_count(),
        "round-trip should preserve definition count"
    );
    assert_eq!(
        loaded.reference_count(),
        index.reference_count(),
        "round-trip should preserve reference count"
    );
    assert_eq!(loaded.calls().len(), index.calls().len());
    assert_eq!(loaded.inherits().len(), index.inherits().len());
    for (a, b) in index.definitions().iter().zip(loaded.definitions().iter()) {
        assert_eq!(a.qualified_name, b.qualified_name);
        assert_eq!(a.location, b.location);
        assert_eq!(a.signature, b.signature);
    }
}
