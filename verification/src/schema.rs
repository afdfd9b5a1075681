//! The layout of the database.
use crate::text::same;
use crate::text;
use vstd::prelude::*;

verus! {

/// Creates the tables that are missing.
pub const CREATE_TABLES: &'static str = "
CREATE TABLE IF NOT EXISTS files (
    id INTEGER PRIMARY KEY,
    path TEXT NOT NULL UNIQUE,
    language TEXT NOT NULL,
    checksum TEXT,
    symbols_checksum TEXT,
    indexed_at INTEGER NOT NULL DEFAULT (unixepoch())
);

CREATE TABLE IF NOT EXISTS definitions (
    id INTEGER PRIMARY KEY,
    name TEXT NOT NULL,
    qualified_name TEXT NOT NULL,
    kind TEXT NOT NULL,
    file_id INTEGER REFERENCES files(id),
    line INTEGER NOT NULL,
    column INTEGER NOT NULL,
    end_line INTEGER NOT NULL DEFAULT 0,
    end_column INTEGER NOT NULL DEFAULT 0,
    parent_name TEXT,
    signature TEXT,
    visibility TEXT NOT NULL DEFAULT 'public',
    is_definition INTEGER NOT NULL DEFAULT 1,
    extra TEXT
);

CREATE TABLE IF NOT EXISTS refs (
    id INTEGER PRIMARY KEY,
    name TEXT NOT NULL,
    kind TEXT NOT NULL DEFAULT 'function',
    file_id INTEGER REFERENCES files(id),
    line INTEGER NOT NULL,
    column INTEGER NOT NULL,
    def_id INTEGER REFERENCES definitions(id),
    context TEXT
);

CREATE TABLE IF NOT EXISTS call_graph (
    id INTEGER PRIMARY KEY,
    caller_id INTEGER REFERENCES definitions(id),
    callee_id INTEGER REFERENCES definitions(id),
    file_id INTEGER REFERENCES files(id),
    line INTEGER NOT NULL,
    column INTEGER NOT NULL DEFAULT 0,
    caller_name TEXT,
    callee_name TEXT
);

CREATE TABLE IF NOT EXISTS inheritance (
    id INTEGER PRIMARY KEY,
    derived_id INTEGER REFERENCES definitions(id),
    base_id INTEGER REFERENCES definitions(id),
    file_id INTEGER REFERENCES files(id),
    access TEXT NOT NULL DEFAULT 'public',
    is_virtual INTEGER NOT NULL DEFAULT 0,
    derived_name TEXT,
    base_name TEXT
);

CREATE TABLE IF NOT EXISTS index_roots (
    id INTEGER PRIMARY KEY,
    path TEXT NOT NULL UNIQUE,
    language TEXT NOT NULL,
    follow_symlinks INTEGER NOT NULL DEFAULT 0,
    reference_mode TEXT NOT NULL DEFAULT 'none',
    include_reference_context INTEGER NOT NULL DEFAULT 0,
    updated_at INTEGER NOT NULL DEFAULT (unixepoch())
);
";

/// Creates the lookup structures that are missing.
pub const CREATE_INDEXES: &'static str = "
CREATE INDEX IF NOT EXISTS idx_definitions_name ON definitions(name);
CREATE INDEX IF NOT EXISTS idx_definitions_qualified ON definitions(qualified_name);
CREATE INDEX IF NOT EXISTS idx_definitions_kind ON definitions(kind);
CREATE INDEX IF NOT EXISTS idx_definitions_file ON definitions(file_id);
CREATE INDEX IF NOT EXISTS idx_refs_name ON refs(name);
CREATE INDEX IF NOT EXISTS idx_refs_file ON refs(file_id);
CREATE INDEX IF NOT EXISTS idx_refs_def ON refs(def_id);
CREATE INDEX IF NOT EXISTS idx_call_graph_caller ON call_graph(caller_id);
CREATE INDEX IF NOT EXISTS idx_call_graph_callee ON call_graph(callee_id);
CREATE INDEX IF NOT EXISTS idx_call_graph_caller_name ON call_graph(caller_name);
CREATE INDEX IF NOT EXISTS idx_call_graph_callee_name ON call_graph(callee_name);
CREATE INDEX IF NOT EXISTS idx_inheritance_derived ON inheritance(derived_id);
CREATE INDEX IF NOT EXISTS idx_inheritance_base ON inheritance(base_id);
CREATE INDEX IF NOT EXISTS idx_inheritance_file ON inheritance(file_id);
CREATE INDEX IF NOT EXISTS idx_inheritance_derived_name ON inheritance(derived_name);
CREATE INDEX IF NOT EXISTS idx_inheritance_base_name ON inheritance(base_name);
";

/// Drops the lookup structures, which slow down large writes.
pub const DROP_INDEXES: &'static str = "
DROP INDEX IF EXISTS idx_definitions_name;
DROP INDEX IF EXISTS idx_definitions_qualified;
DROP INDEX IF EXISTS idx_definitions_kind;
DROP INDEX IF EXISTS idx_definitions_file;
DROP INDEX IF EXISTS idx_refs_name;
DROP INDEX IF EXISTS idx_refs_file;
DROP INDEX IF EXISTS idx_refs_def;
DROP INDEX IF EXISTS idx_call_graph_caller;
DROP INDEX IF EXISTS idx_call_graph_callee;
DROP INDEX IF EXISTS idx_call_graph_caller_name;
DROP INDEX IF EXISTS idx_call_graph_callee_name;
DROP INDEX IF EXISTS idx_inheritance_derived;
DROP INDEX IF EXISTS idx_inheritance_base;
DROP INDEX IF EXISTS idx_inheritance_file;
DROP INDEX IF EXISTS idx_inheritance_derived_name;
DROP INDEX IF EXISTS idx_inheritance_base_name;
";

/// Empties all tables.
pub const CLEAR_TABLES: &'static str =
    "DELETE FROM inheritance; DELETE FROM call_graph; DELETE FROM refs; DELETE FROM definitions; DELETE FROM files; DELETE FROM index_roots;";

/// Adds the column for the scope of a definition.
pub const ADD_PARENT_NAME: &'static str = "ALTER TABLE definitions ADD COLUMN parent_name TEXT;";

/// Adds the column for the fingerprint of the symbols of a file.
pub const ADD_SYMBOLS_CHECKSUM: &'static str = "ALTER TABLE files ADD COLUMN symbols_checksum TEXT;";

/// Adds the column for the file of an inheritance edge.
pub const ADD_INHERITANCE_FILE: &'static str =
    "ALTER TABLE inheritance ADD COLUMN file_id INTEGER REFERENCES files(id);";

/// The statements that bring tables of an older layout up to date: one for each column that is
/// missing.
pub open spec fn migrations(
    definitions: Seq<Seq<char>>,
    files: Seq<Seq<char>>,
    inheritance: Seq<Seq<char>>,
) -> Seq<Seq<char>> {
    let a = if definitions.contains("parent_name"@) {
        Seq::empty()
    } else {
        seq![ADD_PARENT_NAME@]
    };
    let b = if files.contains("symbols_checksum"@) {
        a
    } else {
        a.push(ADD_SYMBOLS_CHECKSUM@)
    };
    if inheritance.contains("file_id"@) {
        b
    } else {
        b.push(ADD_INHERITANCE_FILE@)
    }
}

/// Whether a column is among columns.
fn has_column(columns: &Vec<String>, name: &str) -> (r: bool)
    ensures
        r == text::views(columns@).contains(name@),
{
    let ghost all = text::views(columns@);
    let mut i: usize = 0;
    while i < columns.len()
        invariant
            all == text::views(columns@),
            i <= columns@.len(),
            forall|k: int| 0 <= k < i ==> (#[trigger] all[k]) != name@,
        decreases columns@.len() - i,
    {
        assert(all[i as int] == columns@[i as int]@);
        if same(columns[i].as_str(), name) {
            return true;
        }
        i = i + 1;
    }
    false
}

/// The statements that bring tables of an older layout up to date, from the columns that the
/// tables have.
pub fn column_migrations(
    definitions: &Vec<String>,
    files: &Vec<String>,
    inheritance: &Vec<String>,
) -> (r: Vec<&'static str>)
    ensures
        text::views(r@) == migrations(
            text::views(definitions@),
            text::views(files@),
            text::views(inheritance@),
        ),
{
    let mut r: Vec<&'static str> = Vec::new();
    if !has_column(definitions, "parent_name") {
        r.push(ADD_PARENT_NAME);
    }
    if !has_column(files, "symbols_checksum") {
        r.push(ADD_SYMBOLS_CHECKSUM);
    }
    if !has_column(inheritance, "file_id") {
        r.push(ADD_INHERITANCE_FILE);
    }
    assert(text::views(r@) =~= migrations(
        text::views(definitions@),
        text::views(files@),
        text::views(inheritance@),
    ));
    r
}

/// A column is added exactly where its table lacks it, and once; nothing else is done to the tables.
pub proof fn law_missing_columns_are_added(
    definitions: Seq<Seq<char>>,
    files: Seq<Seq<char>>,
    inheritance: Seq<Seq<char>>,
    statement: Seq<char>,
)
    ensures
        migrations(definitions, files, inheritance).contains(statement) <==> {
            ||| statement == "ALTER TABLE definitions ADD COLUMN parent_name TEXT;"@
                && !definitions.contains("parent_name"@)
            ||| statement == "ALTER TABLE files ADD COLUMN symbols_checksum TEXT;"@
                && !files.contains("symbols_checksum"@)
            ||| statement
                == "ALTER TABLE inheritance ADD COLUMN file_id INTEGER REFERENCES files(id);"@
                && !inheritance.contains("file_id"@)
        },
        migrations(definitions, files, inheritance).no_duplicates(),
{
    reveal_strlit("ALTER TABLE definitions ADD COLUMN parent_name TEXT;");
    reveal_strlit("ALTER TABLE files ADD COLUMN symbols_checksum TEXT;");
    reveal_strlit(
        "ALTER TABLE inheritance ADD COLUMN file_id INTEGER REFERENCES files(id);",
    );
    assert(ADD_PARENT_NAME@.len() == 52 && ADD_SYMBOLS_CHECKSUM@.len() == 51);
    assert(ADD_INHERITANCE_FILE@.len() == 72);
    let a = if definitions.contains("parent_name"@) {
        Seq::<Seq<char>>::empty()
    } else {
        seq![ADD_PARENT_NAME@]
    };
    let b = if files.contains("symbols_checksum"@) {
        a
    } else {
        a.push(ADD_SYMBOLS_CHECKSUM@)
    };
    assert(a.contains(ADD_PARENT_NAME@) <==> !definitions.contains("parent_name"@)) by {
        if !definitions.contains("parent_name"@) {
            assert(a[0] == ADD_PARENT_NAME@);
        }
    }
    text::lemma_push_contains(a, ADD_SYMBOLS_CHECKSUM@);
    text::lemma_push_contains(b, ADD_INHERITANCE_FILE@);
}

} // verus!
