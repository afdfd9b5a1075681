//! Updates the tables of a database file by file: the rows of changed files are replaced, and
//! what refers to definitions that came or went is linked anew.
use crate::index;
use crate::lookup::{NameLookup, NameSet};
use crate::rows::{
    CallRow, CallRowView, DefinitionRow, DefinitionRowView, FileRow, FileRowView, InheritRow,
    InheritRowView, RefRow, RefRowView, Tables, TablesView,
};
use crate::save::{make_call_row, make_definition_row, make_inherit_row, make_ref_row};
use crate::save;
use crate::stream::IncrementalDbUpdate;
use crate::text::same;
use crate::text;
use crate::types::{FileSymbols, FileSymbolsView};
use std::collections::HashSet;
use vstd::prelude::*;

verus! {

broadcast use vstd::std_specs::hash::group_hash_axioms;

/// A file whose symbols have changed.
pub struct IncrementalFileUpdate<'a> {
    pub symbols: &'a FileSymbols,
    pub checksum: &'a str,
    pub symbols_checksum: &'a str,
}

/// A file whose symbols have changed.
pub struct FileUpdateView {
    pub symbols: FileSymbolsView,
    pub checksum: Seq<char>,
    pub symbols_checksum: Seq<char>,
}

impl<'a> View for IncrementalFileUpdate<'a> {
    type V = FileUpdateView;

    open spec fn view(&self) -> FileUpdateView {
        FileUpdateView {
            symbols: self.symbols@,
            checksum: self.checksum@,
            symbols_checksum: self.symbols_checksum@,
        }
    }
}

/// A file whose content has changed but not its symbols.
pub struct IncrementalChecksumUpdate<'a> {
    pub path: &'a str,
    pub checksum: &'a str,
    pub symbols_checksum: &'a str,
}

/// A file whose content has changed but not its symbols.
pub struct ChecksumUpdateView {
    pub path: Seq<char>,
    pub checksum: Seq<char>,
    pub symbols_checksum: Seq<char>,
}

impl<'a> View for IncrementalChecksumUpdate<'a> {
    type V = ChecksumUpdateView;

    open spec fn view(&self) -> ChecksumUpdateView {
        ChecksumUpdateView {
            path: self.path@,
            checksum: self.checksum@,
            symbols_checksum: self.symbols_checksum@,
        }
    }
}

/// The paths of file rows.
pub open spec fn row_paths(files: Seq<FileRowView>) -> Seq<Seq<char>> {
    files.map_values(|f: FileRowView| f.path)
}

/// The position of the row of the file at a path.
pub open spec fn row_of(files: Seq<FileRowView>, path: Seq<char>) -> Option<int> {
    let at = index::spots(row_paths(files), path);
    if at.len() > 0 {
        Some(at[0] as int)
    } else {
        None
    }
}

/// The largest of some numbers, and zero where there is none above it.
pub open spec fn top(ids: Seq<i64>) -> int
    decreases ids.len(),
{
    if ids.len() == 0 {
        0
    } else if ids.last() > top(ids.drop_last()) {
        ids.last() as int
    } else {
        top(ids.drop_last())
    }
}

/// The numbers of file rows.
pub open spec fn file_ids(s: Seq<FileRowView>) -> Seq<i64> {
    s.map_values(|r: FileRowView| r.id)
}

/// The numbers of definition rows.
pub open spec fn definition_ids(s: Seq<DefinitionRowView>) -> Seq<i64> {
    s.map_values(|r: DefinitionRowView| r.id)
}

/// The numbers of reference rows.
pub open spec fn ref_ids(s: Seq<RefRowView>) -> Seq<i64> {
    s.map_values(|r: RefRowView| r.id)
}

/// The numbers of call rows.
pub open spec fn call_ids(s: Seq<CallRowView>) -> Seq<i64> {
    s.map_values(|r: CallRowView| r.id)
}

/// The numbers of inheritance rows.
pub open spec fn inherit_ids(s: Seq<InheritRowView>) -> Seq<i64> {
    s.map_values(|r: InheritRowView| r.id)
}

/// Whether a definition of a file has a number.
pub open spec fn defines_id(definitions: Seq<DefinitionRowView>, file_id: i64, id: i64) -> bool {
    exists|i: int|
        0 <= i < definitions.len() && (#[trigger] definitions[i]).file_id == Some(file_id)
            && definitions[i].id == id
}

/// Whether a definition of a file goes by a name, simple or qualified.
pub open spec fn defines_name(
    definitions: Seq<DefinitionRowView>,
    file_id: i64,
    name: Seq<char>,
) -> bool {
    exists|i: int|
        0 <= i < definitions.len() && (#[trigger] definitions[i]).file_id == Some(file_id) && (
        definitions[i].name == name || definitions[i].qualified_name == name)
}

/// Tells the definition rows of other files.
pub open spec fn definition_elsewhere(file_id: i64) -> spec_fn(DefinitionRowView) -> bool {
    |r: DefinitionRowView| r.file_id != Some(file_id)
}

/// Tells the reference rows of other files.
pub open spec fn ref_elsewhere(file_id: i64) -> spec_fn(RefRowView) -> bool {
    |r: RefRowView| r.file_id != Some(file_id)
}

/// Tells the call rows of other files.
pub open spec fn call_elsewhere(file_id: i64) -> spec_fn(CallRowView) -> bool {
    |r: CallRowView| r.file_id != Some(file_id)
}

/// Tells the inheritance rows that do not belong to a file. A row without a file belongs to the
/// one that defines its derived class, by number or by name.
pub open spec fn inherit_elsewhere(
    definitions: Seq<DefinitionRowView>,
    file_id: i64,
) -> spec_fn(InheritRowView) -> bool {
    |r: InheritRowView|
        match r.file_id {
            Some(id) => id != file_id,
            None => !(r.derived_id matches Some(d) && defines_id(definitions, file_id, d))
                && !defines_name(definitions, file_id, r.derived_name),
        }
}

/// Tells the file rows with another number.
pub open spec fn file_elsewhere(file_id: i64) -> spec_fn(FileRowView) -> bool {
    |r: FileRowView| r.id != file_id
}

/// The tables without the symbols of a file.
pub open spec fn cleared(t: TablesView, file_id: i64) -> TablesView {
    TablesView {
        files: t.files,
        definitions: t.definitions.filter(definition_elsewhere(file_id)),
        refs: t.refs.filter(ref_elsewhere(file_id)),
        calls: t.calls.filter(call_elsewhere(file_id)),
        inherits: t.inherits.filter(inherit_elsewhere(t.definitions, file_id)),
    }
}

/// The tables without the symbols of a file and, where asked for, without the file.
pub open spec fn without_file(t: TablesView, file_id: i64, delete_file: bool) -> TablesView {
    TablesView {
        files: if delete_file {
            t.files.filter(file_elsewhere(file_id))
        } else {
            t.files
        },
        ..cleared(t, file_id)
    }
}

/// The number under which a file is stored, or the next free one.
pub open spec fn stored_number(files: Seq<FileRowView>, path: Seq<char>) -> i64 {
    match row_of(files, path) {
        Some(k) => files[k].id,
        None => (top(file_ids(files)) + 1) as i64,
    }
}

/// The file rows after the row of a file was written: in place where the file has one, else
/// behind the others.
pub open spec fn upserted(
    files: Seq<FileRowView>,
    path: Seq<char>,
    language: Seq<char>,
    checksum: Seq<char>,
    symbols_checksum: Seq<char>,
) -> Seq<FileRowView> {
    let row = FileRowView {
        id: stored_number(files, path),
        path,
        language,
        checksum: Some(checksum),
        symbols_checksum: Some(symbols_checksum),
    };
    match row_of(files, path) {
        Some(k) => files.update(k, row),
        None => files.push(row),
    }
}

/// The file rows after the checksums of a file were written; a file without a row is passed
/// over.
pub open spec fn with_checksums(files: Seq<FileRowView>, u: ChecksumUpdateView) -> Seq<FileRowView> {
    match row_of(files, u.path) {
        Some(k) => files.update(
            k,
            FileRowView {
                checksum: Some(u.checksum),
                symbols_checksum: Some(u.symbols_checksum),
                ..files[k]
            },
        ),
        None => files,
    }
}

/// The tables with the symbols of a file behind the others, linked to nothing yet.
pub open spec fn inserted(t: TablesView, file_id: i64, f: FileSymbolsView) -> TablesView {
    TablesView {
        files: t.files,
        definitions: t.definitions + Seq::new(
            f.definitions.len(),
            |k: int|
                save::definition_row(
                    (top(definition_ids(t.definitions)) + k + 1) as i64,
                    Some(file_id),
                    f.definitions[k],
                ),
        ),
        refs: t.refs + Seq::new(
            f.references.len(),
            |k: int|
                save::ref_row(
                    (top(ref_ids(t.refs)) + k + 1) as i64,
                    Some(file_id),
                    None,
                    f.references[k],
                ),
        ),
        calls: t.calls + Seq::new(
            f.calls.len(),
            |k: int|
                save::call_row(
                    (top(call_ids(t.calls)) + k + 1) as i64,
                    Some(file_id),
                    None,
                    None,
                    f.calls[k],
                ),
        ),
        inherits: t.inherits + Seq::new(
            f.inherits.len(),
            |k: int|
                save::inherit_row(
                    (top(inherit_ids(t.inherits)) + k + 1) as i64,
                    Some(file_id),
                    None,
                    None,
                    f.inherits[k],
                ),
        ),
    }
}

/// Whether a file defines a name, simple or qualified.
pub open spec fn file_defines(f: FileSymbolsView, name: Seq<char>) -> bool {
    exists|i: int|
        0 <= i < f.definitions.len() && ((#[trigger] f.definitions[i]).name == name
            || f.definitions[i].qualified_name == name)
}

/// The names of definition rows.
pub open spec fn row_names(s: Seq<DefinitionRowView>) -> Seq<Seq<char>> {
    s.map_values(|r: DefinitionRowView| r.name)
}

/// The qualified names of definition rows.
pub open spec fn row_qualified_names(s: Seq<DefinitionRowView>) -> Seq<Seq<char>> {
    s.map_values(|r: DefinitionRowView| r.qualified_name)
}

/// The number of the definition that a reference resolves to: that of the only one with its name
/// as its qualified name; where none has it so, that of the only one with it as its simple name.
pub open spec fn row_resolution(definitions: Seq<DefinitionRowView>, name: Seq<char>) -> Option<
    i64,
> {
    let exact = index::spots(row_qualified_names(definitions), name);
    let simple = index::spots(row_names(definitions), name);
    if exact.len() == 1 {
        Some(definitions[exact[0] as int].id)
    } else if exact.len() == 0 && simple.len() == 1 {
        Some(definitions[simple[0] as int].id)
    } else {
        None
    }
}

/// The number of the definition that an end of a call or of an inheritance edge is linked to: the
/// largest of those that have the name as their qualified name; where none has it so, that of
/// the only one with it as its simple name.
pub open spec fn row_link(definitions: Seq<DefinitionRowView>, name: Seq<char>) -> Option<i64> {
    let exact = index::spots(row_qualified_names(definitions), name);
    let simple = index::spots(row_names(definitions), name);
    if exact.len() > 0 {
        Some(top(definition_ids(index::picked(definitions, exact))) as i64)
    } else if simple.len() == 1 {
        Some(definitions[simple[0] as int].id)
    } else {
        None
    }
}

/// What an update has changed so far: the files that it wrote, the definitions that it took
/// out, and the names whose definitions have changed.
pub struct ChangeView {
    pub files: Set<i64>,
    pub gone: Set<i64>,
    pub propagate: Set<Seq<char>>,
}

/// Whether a number stands for a definition that was taken out.
pub open spec fn is_gone(c: ChangeView, id: Option<i64>) -> bool {
    id matches Some(id) && c.gone.contains(id)
}

/// Whether a row stands in a file that was written.
pub open spec fn is_written(c: ChangeView, file_id: Option<i64>) -> bool {
    file_id matches Some(id) && c.files.contains(id)
}

/// A reference row, linked anew where the update concerns it.
pub open spec fn relinked_ref(
    definitions: Seq<DefinitionRowView>,
    c: ChangeView,
    r: RefRowView,
) -> RefRowView {
    if is_written(c, r.file_id) || is_gone(c, r.def_id) || c.propagate.contains(r.name) {
        RefRowView { def_id: row_resolution(definitions, r.name), ..r }
    } else {
        r
    }
}

/// A call row, linked anew at both ends where the update concerns it.
pub open spec fn relinked_call(
    definitions: Seq<DefinitionRowView>,
    c: ChangeView,
    r: CallRowView,
) -> CallRowView {
    if is_written(c, r.file_id) || is_gone(c, r.caller_id) || is_gone(c, r.callee_id)
        || c.propagate.contains(r.caller_name) || c.propagate.contains(r.callee_name) {
        CallRowView {
            caller_id: row_link(definitions, r.caller_name),
            callee_id: row_link(definitions, r.callee_name),
            ..r
        }
    } else {
        r
    }
}

/// An inheritance row, linked anew at both ends where the update concerns it.
pub open spec fn relinked_inherit(
    definitions: Seq<DefinitionRowView>,
    c: ChangeView,
    r: InheritRowView,
) -> InheritRowView {
    if is_written(c, r.file_id) || is_gone(c, r.derived_id) || is_gone(c, r.base_id)
        || c.propagate.contains(r.derived_name) || c.propagate.contains(r.base_name) {
        InheritRowView {
            derived_id: row_link(definitions, r.derived_name),
            base_id: row_link(definitions, r.base_name),
            ..r
        }
    } else {
        r
    }
}

/// The tables with every row linked anew that the update concerns.
pub open spec fn relinked(t: TablesView, c: ChangeView) -> TablesView {
    TablesView {
        files: t.files,
        definitions: t.definitions,
        refs: t.refs.map_values(|r: RefRowView| relinked_ref(t.definitions, c, r)),
        calls: t.calls.map_values(|r: CallRowView| relinked_call(t.definitions, c, r)),
        inherits: t.inherits.map_values(|r: InheritRowView| relinked_inherit(t.definitions, c, r)),
    }
}

/// The tables and what was changed in them.
pub struct UpdateView {
    pub tables: TablesView,
    pub changes: ChangeView,
}

/// The names that the definitions of a file go by.
pub open spec fn names_of_file(definitions: Seq<DefinitionRowView>, file_id: i64) -> Set<Seq<char>> {
    Set::new(|n: Seq<char>| defines_name(definitions, file_id, n))
}

/// The numbers of the definitions of a file.
pub open spec fn ids_of_file(definitions: Seq<DefinitionRowView>, file_id: i64) -> Set<i64> {
    Set::new(|i: i64| defines_id(definitions, file_id, i))
}

/// A file is taken out, with all that it defines. Nothing happens where it is not stored.
pub open spec fn removed(u: UpdateView, path: Seq<char>) -> UpdateView {
    match row_of(u.tables.files, path) {
        Some(k) => {
            let id = u.tables.files[k].id;
            let names = names_of_file(u.tables.definitions, id);
            UpdateView {
                tables: without_file(u.tables, id, true),
                changes: ChangeView {
                    files: u.changes.files,
                    gone: u.changes.gone.union(ids_of_file(u.tables.definitions, id)),
                    propagate: u.changes.propagate.union(names),
                },
            }
        },
        None => u,
    }
}

/// The names that a file defines.
pub open spec fn names_defined(f: FileSymbolsView) -> Set<Seq<char>> {
    Set::new(|n: Seq<char>| file_defines(f, n))
}

/// The symbols of a file take the place of those stored of it. The names that the file defined
/// before or defines now may have changed their meaning elsewhere.
pub open spec fn replaced(u: UpdateView, f: FileUpdateView) -> UpdateView {
    let path = f.symbols.file;
    let t = u.tables;
    let number = stored_number(t.files, path);
    let stored = row_of(t.files, path) is Some;
    let old_names = if stored {
        names_of_file(t.definitions, number)
    } else {
        Set::empty()
    };
    let old_ids = if stored {
        ids_of_file(t.definitions, number)
    } else {
        Set::empty()
    };
    let emptied = if stored {
        cleared(t, number)
    } else {
        t
    };
    let listed = TablesView {
        files: upserted(t.files, path, f.symbols.language, f.checksum, f.symbols_checksum),
        ..emptied
    };
    let new_names = names_defined(f.symbols);
    UpdateView {
        tables: inserted(listed, number, f.symbols),
        changes: ChangeView {
            files: u.changes.files.insert(number),
            gone: u.changes.gone.union(old_ids),
            propagate: u.changes.propagate.union(old_names).union(new_names),
        },
    }
}

/// The file rows after the checksums of some files were written.
pub open spec fn all_checksums(files: Seq<FileRowView>, us: Seq<ChecksumUpdateView>) -> Seq<
    FileRowView,
>
    decreases us.len(),
{
    if us.len() == 0 {
        files
    } else {
        with_checksums(all_checksums(files, us.drop_last()), us.last())
    }
}

/// Files are taken out, one after the other.
pub open spec fn all_removed(u: UpdateView, paths: Seq<Seq<char>>) -> UpdateView
    decreases paths.len(),
{
    if paths.len() == 0 {
        u
    } else {
        removed(all_removed(u, paths.drop_last()), paths.last())
    }
}

/// Files are replaced, one after the other.
pub open spec fn all_replaced(u: UpdateView, fs: Seq<FileUpdateView>) -> UpdateView
    decreases fs.len(),
{
    if fs.len() == 0 {
        u
    } else {
        replaced(all_replaced(u, fs.drop_last()), fs.last())
    }
}

/// Nothing was changed yet.
pub open spec fn no_changes() -> ChangeView {
    ChangeView {
        files: Set::empty(),
        gone: Set::empty(),
        propagate: Set::empty(),
    }
}

/// The tables before rows are linked anew, and what was changed in them.
pub open spec fn changed(
    t: TablesView,
    updates: Seq<FileUpdateView>,
    checksums: Seq<ChecksumUpdateView>,
    gone: Seq<Seq<char>>,
) -> UpdateView {
    let start = UpdateView {
        tables: TablesView { files: all_checksums(t.files, checksums), ..t },
        changes: no_changes(),
    };
    all_replaced(all_removed(start, gone), updates)
}

/// The tables after an update: checksums are written, files are taken out, files are replaced,
/// and then every row is linked anew that the update concerns.
pub open spec fn updated(
    t: TablesView,
    updates: Seq<FileUpdateView>,
    checksums: Seq<ChecksumUpdateView>,
    gone: Seq<Seq<char>>,
) -> TablesView {
    let u = changed(t, updates, checksums, gone);
    relinked(u.tables, u.changes)
}

/// The largest number of file rows.
fn top_file(rows: &Vec<FileRow>) -> (r: i64)
    ensures
        r == top(file_ids(text::views(rows@))),
        r >= 0,
{
    let ghost ids = file_ids(text::views(rows@));
    let mut r: i64 = 0;
    let mut i: usize = 0;
    while i < rows.len()
        invariant
            ids == file_ids(text::views(rows@)),
            i <= rows@.len(),
            r == top(ids.take(i as int)),
            r >= 0,
        decreases rows@.len() - i,
    {
        proof {
            assert(ids.take(i + 1).drop_last() =~= ids.take(i as int));
            assert(ids.take(i + 1).last() == rows@[i as int].id);
        }
        if rows[i].id > r {
            r = rows[i].id;
        }
        i = i + 1;
    }
    assert(ids.take(i as int) =~= ids);
    r
}

/// The largest number of definition rows.
fn top_definition(rows: &Vec<DefinitionRow>) -> (r: i64)
    ensures
        r == top(definition_ids(text::views(rows@))),
        r >= 0,
{
    let ghost ids = definition_ids(text::views(rows@));
    let mut r: i64 = 0;
    let mut i: usize = 0;
    while i < rows.len()
        invariant
            ids == definition_ids(text::views(rows@)),
            i <= rows@.len(),
            r == top(ids.take(i as int)),
            r >= 0,
        decreases rows@.len() - i,
    {
        proof {
            assert(ids.take(i + 1).drop_last() =~= ids.take(i as int));
            assert(ids.take(i + 1).last() == rows@[i as int].id);
        }
        if rows[i].id > r {
            r = rows[i].id;
        }
        i = i + 1;
    }
    assert(ids.take(i as int) =~= ids);
    r
}

/// The largest number of reference rows.
fn top_ref(rows: &Vec<RefRow>) -> (r: i64)
    ensures
        r == top(ref_ids(text::views(rows@))),
        r >= 0,
{
    let ghost ids = ref_ids(text::views(rows@));
    let mut r: i64 = 0;
    let mut i: usize = 0;
    while i < rows.len()
        invariant
            ids == ref_ids(text::views(rows@)),
            i <= rows@.len(),
            r == top(ids.take(i as int)),
            r >= 0,
        decreases rows@.len() - i,
    {
        proof {
            assert(ids.take(i + 1).drop_last() =~= ids.take(i as int));
            assert(ids.take(i + 1).last() == rows@[i as int].id);
        }
        if rows[i].id > r {
            r = rows[i].id;
        }
        i = i + 1;
    }
    assert(ids.take(i as int) =~= ids);
    r
}

/// The largest number of call rows.
fn top_call(rows: &Vec<CallRow>) -> (r: i64)
    ensures
        r == top(call_ids(text::views(rows@))),
        r >= 0,
{
    let ghost ids = call_ids(text::views(rows@));
    let mut r: i64 = 0;
    let mut i: usize = 0;
    while i < rows.len()
        invariant
            ids == call_ids(text::views(rows@)),
            i <= rows@.len(),
            r == top(ids.take(i as int)),
            r >= 0,
        decreases rows@.len() - i,
    {
        proof {
            assert(ids.take(i + 1).drop_last() =~= ids.take(i as int));
            assert(ids.take(i + 1).last() == rows@[i as int].id);
        }
        if rows[i].id > r {
            r = rows[i].id;
        }
        i = i + 1;
    }
    assert(ids.take(i as int) =~= ids);
    r
}

/// The largest number of inheritance rows.
fn top_inherit(rows: &Vec<InheritRow>) -> (r: i64)
    ensures
        r == top(inherit_ids(text::views(rows@))),
        r >= 0,
{
    let ghost ids = inherit_ids(text::views(rows@));
    let mut r: i64 = 0;
    let mut i: usize = 0;
    while i < rows.len()
        invariant
            ids == inherit_ids(text::views(rows@)),
            i <= rows@.len(),
            r == top(ids.take(i as int)),
            r >= 0,
        decreases rows@.len() - i,
    {
        proof {
            assert(ids.take(i + 1).drop_last() =~= ids.take(i as int));
            assert(ids.take(i + 1).last() == rows@[i as int].id);
        }
        if rows[i].id > r {
            r = rows[i].id;
        }
        i = i + 1;
    }
    assert(ids.take(i as int) =~= ids);
    r
}

/// The position of the row of the file at a path.
fn find_row(files: &Vec<FileRow>, path: &str) -> (r: Option<usize>)
    ensures
        match r {
            Some(k) => row_of(text::views(files@), path@) == Some(k as int) && k < files@.len(),
            None => row_of(text::views(files@), path@) is None,
        },
{
    let ghost keys = row_paths(text::views(files@));
    let ghost at = index::spots(keys, path@);
    assert(files.len() == files@.len());
    proof {
        index::lemma_spots(keys, path@);
    }
    let mut i: usize = 0;
    while i < files.len()
        invariant
            keys == row_paths(text::views(files@)),
            keys.len() <= usize::MAX,
            at == index::spots(keys, path@),
            index::ascending(at, keys.len() as int),
            forall|k: int| 0 <= k < at.len() ==> keys[(#[trigger] at[k]) as int] == path@,
            forall|j: usize| j < keys.len() && keys[j as int] == path@ ==> #[trigger] at.contains(j),
            i <= files@.len(),
            forall|j: int| 0 <= j < i ==> keys[j] != path@,
        decreases files@.len() - i,
    {
        assert(keys[i as int] == files@[i as int].path@);
        if same(files[i].path.as_str(), path) {
            proof {
                assert(at.contains(i));
                let k = choose|k: int| 0 <= k < at.len() && at[k] == i;
                assert(keys[at[0] as int] == path@);
            }
            return Some(i);
        }
        i = i + 1;
    }
    proof {
        if at.len() > 0 {
            assert(keys[at[0] as int] == path@);
        }
    }
    None
}

/// What was known of a file whose symbols were taken out.
pub struct DeletedFileInfo {
    pub file_id: i64,
    pub old_def_ids: Vec<i64>,
    pub old_names: Vec<String>,
}

/// The numbers of the definitions of a file, and the names that they go by.
fn definitions_of_file(definitions: &Vec<DefinitionRow>, file_id: i64) -> (r: (
    Vec<i64>,
    Vec<String>,
))
    ensures
        forall|id: i64| #[trigger]
            r.0@.contains(id) <==> defines_id(text::views(definitions@), file_id, id),
        forall|n: Seq<char>| #[trigger]
            text::views(r.1@).contains(n) <==> defines_name(text::views(definitions@), file_id, n),
{
    let ghost all = text::views(definitions@);
    let mut ids: Vec<i64> = Vec::new();
    let mut names: Vec<String> = Vec::new();
    let mut i: usize = 0;
    while i < definitions.len()
        invariant
            all == text::views(definitions@),
            i <= definitions@.len(),
            forall|id: i64| #[trigger]
                ids@.contains(id) <==> defines_id(all.take(i as int), file_id, id),
            forall|n: Seq<char>| #[trigger]
                text::views(names@).contains(n) <==> defines_name(all.take(i as int), file_id, n),
        decreases definitions@.len() - i,
    {
        let d = &definitions[i];
        let ghost short = all.take(i as int);
        let ghost long = all.take(i + 1);
        proof {
            assert(long[i as int] == d@);
            assert forall|id: i64| #[trigger]
                defines_id(long, file_id, id) <==> defines_id(short, file_id, id) || (d.file_id
                    == Some(file_id) && d.id == id) by {
                if defines_id(short, file_id, id) {
                    let k = choose|k: int|
                        0 <= k < short.len() && (#[trigger] short[k]).file_id == Some(file_id)
                            && short[k].id == id;
                    assert(long[k] == short[k]);
                }
                if defines_id(long, file_id, id) {
                    let k = choose|k: int|
                        0 <= k < long.len() && (#[trigger] long[k]).file_id == Some(file_id)
                            && long[k].id == id;
                    if k < i {
                        assert(short[k] == long[k]);
                    }
                }
            }
            assert forall|n: Seq<char>| #[trigger]
                defines_name(long, file_id, n) <==> defines_name(short, file_id, n) || (d.file_id
                    == Some(file_id) && (d.name@ == n || d.qualified_name@ == n)) by {
                if defines_name(short, file_id, n) {
                    let k = choose|k: int|
                        0 <= k < short.len() && (#[trigger] short[k]).file_id == Some(file_id) && (
                        short[k].name == n || short[k].qualified_name == n);
                    assert(long[k] == short[k]);
                }
                if defines_name(long, file_id, n) {
                    let k = choose|k: int|
                        0 <= k < long.len() && (#[trigger] long[k]).file_id == Some(file_id) && (
                        long[k].name == n || long[k].qualified_name == n);
                    if k < i {
                        assert(short[k] == long[k]);
                    }
                }
            }
        }
        let here = match d.file_id {
            Some(id) => id == file_id,
            None => false,
        };
        if here {
            let ghost old_ids = ids@;
            let ghost old_names = text::views(names@);
            let name = d.name.clone();
            let qualified_name = d.qualified_name.clone();
            proof {
                text::lemma_views_push(names@, name);
                text::lemma_views_push(names@.push(name), qualified_name);
            }
            ids.push(d.id);
            names.push(name);
            names.push(qualified_name);
            proof {
                assert forall|id: i64| #[trigger] ids@.contains(id) <==> old_ids.contains(id) || id
                    == d.id by {
                    lemma_contains_push(old_ids, d.id, id);
                }
                assert forall|n: Seq<char>| #[trigger]
                    text::views(names@).contains(n) <==> old_names.contains(n) || n == d.name@ || n
                        == d.qualified_name@ by {
                    lemma_contains_push(old_names, d.name@, n);
                    lemma_contains_push(old_names.push(d.name@), d.qualified_name@, n);
                }
            }
        }
        i = i + 1;
    }
    assert(all.take(i as int) =~= all);
    (ids, names)
}

/// What a longer list holds.
proof fn lemma_contains_push<T>(s: Seq<T>, t: T, x: T)
    ensures
        s.push(t).contains(x) <==> s.contains(x) || x == t,
{
    let l = s.push(t);
    if s.contains(x) {
        let k = choose|k: int| 0 <= k < s.len() && s[k] == x;
        assert(l[k] == x);
    }
    if x == t {
        assert(l[s.len() as int] == x);
    }
    if l.contains(x) && x != t {
        let k = choose|k: int| 0 <= k < l.len() && l[k] == x;
        assert(s[k] == x);
    }
}

/// The definition rows of other files.
fn other_definitions(rows: &Vec<DefinitionRow>, file_id: i64) -> (r: Vec<DefinitionRow>)
    ensures
        text::views(r@) == text::views(rows@).filter(definition_elsewhere(file_id)),
{
    let ghost all = text::views(rows@);
    let ghost p = definition_elsewhere(file_id);
    let mut r: Vec<DefinitionRow> = Vec::new();
    let mut i: usize = 0;
    proof {
        reveal(Seq::filter);
    }
    assert(text::views(r@) =~= all.take(0).filter(p));
    while i < rows.len()
        invariant
            all == text::views(rows@),
            p == definition_elsewhere(file_id),
            i <= rows@.len(),
            text::views(r@) == all.take(i as int).filter(p),
        decreases rows@.len() - i,
    {
        let row = &rows[i];
        proof {
            reveal(Seq::filter);
            assert(all.take(i + 1).drop_last() =~= all.take(i as int));
            assert(all.take(i + 1).last() == row@);
        }
        let here = match row.file_id {
            Some(id) => id == file_id,
            None => false,
        };
        if !here {
            let kept = row.clone();
            proof {
                text::lemma_views_push(r@, kept);
            }
            r.push(kept);
        }
        i = i + 1;
    }
    assert(all.take(i as int) =~= all);
    r
}

/// The reference rows of other files.
fn other_refs(rows: &Vec<RefRow>, file_id: i64) -> (r: Vec<RefRow>)
    ensures
        text::views(r@) == text::views(rows@).filter(ref_elsewhere(file_id)),
{
    let ghost all = text::views(rows@);
    let ghost p = ref_elsewhere(file_id);
    let mut r: Vec<RefRow> = Vec::new();
    let mut i: usize = 0;
    proof {
        reveal(Seq::filter);
    }
    assert(text::views(r@) =~= all.take(0).filter(p));
    while i < rows.len()
        invariant
            all == text::views(rows@),
            p == ref_elsewhere(file_id),
            i <= rows@.len(),
            text::views(r@) == all.take(i as int).filter(p),
        decreases rows@.len() - i,
    {
        let row = &rows[i];
        proof {
            reveal(Seq::filter);
            assert(all.take(i + 1).drop_last() =~= all.take(i as int));
            assert(all.take(i + 1).last() == row@);
        }
        let here = match row.file_id {
            Some(id) => id == file_id,
            None => false,
        };
        if !here {
            let kept = row.clone();
            proof {
                text::lemma_views_push(r@, kept);
            }
            r.push(kept);
        }
        i = i + 1;
    }
    assert(all.take(i as int) =~= all);
    r
}

/// The call rows of other files.
fn other_calls(rows: &Vec<CallRow>, file_id: i64) -> (r: Vec<CallRow>)
    ensures
        text::views(r@) == text::views(rows@).filter(call_elsewhere(file_id)),
{
    let ghost all = text::views(rows@);
    let ghost p = call_elsewhere(file_id);
    let mut r: Vec<CallRow> = Vec::new();
    let mut i: usize = 0;
    proof {
        reveal(Seq::filter);
    }
    assert(text::views(r@) =~= all.take(0).filter(p));
    while i < rows.len()
        invariant
            all == text::views(rows@),
            p == call_elsewhere(file_id),
            i <= rows@.len(),
            text::views(r@) == all.take(i as int).filter(p),
        decreases rows@.len() - i,
    {
        let row = &rows[i];
        proof {
            reveal(Seq::filter);
            assert(all.take(i + 1).drop_last() =~= all.take(i as int));
            assert(all.take(i + 1).last() == row@);
        }
        let here = match row.file_id {
            Some(id) => id == file_id,
            None => false,
        };
        if !here {
            let kept = row.clone();
            proof {
                text::lemma_views_push(r@, kept);
            }
            r.push(kept);
        }
        i = i + 1;
    }
    assert(all.take(i as int) =~= all);
    r
}

/// The inheritance rows that do not belong to a file.
fn other_inherits(
    rows: &Vec<InheritRow>,
    definitions: Ghost<Seq<DefinitionRowView>>,
    file_id: i64,
    old_ids: &HashSet<i64>,
    old_names: &NameSet,
) -> (r: Vec<InheritRow>)
    requires
        forall|id: i64| #[trigger] old_ids@.contains(id) <==> defines_id(definitions@, file_id, id),
        forall|n: Seq<char>| #[trigger]
            old_names@.contains(n) <==> defines_name(definitions@, file_id, n),
    ensures
        text::views(r@) == text::views(rows@).filter(inherit_elsewhere(definitions@, file_id)),
{
    let ghost all = text::views(rows@);
    let ghost p = inherit_elsewhere(definitions@, file_id);
    let mut r: Vec<InheritRow> = Vec::new();
    let mut i: usize = 0;
    proof {
        reveal(Seq::filter);
    }
    assert(text::views(r@) =~= all.take(0).filter(p));
    while i < rows.len()
        invariant
            all == text::views(rows@),
            p == inherit_elsewhere(definitions@, file_id),
            forall|id: i64| #[trigger]
                old_ids@.contains(id) <==> defines_id(definitions@, file_id, id),
            forall|n: Seq<char>| #[trigger]
                old_names@.contains(n) <==> defines_name(definitions@, file_id, n),
            i <= rows@.len(),
            text::views(r@) == all.take(i as int).filter(p),
        decreases rows@.len() - i,
    {
        let row = &rows[i];
        proof {
            reveal(Seq::filter);
            assert(all.take(i + 1).drop_last() =~= all.take(i as int));
            assert(all.take(i + 1).last() == row@);
        }
        let here = match row.file_id {
            Some(id) => id == file_id,
            None => {
                let derived = match row.derived_id {
                    Some(id) => old_ids.contains(&id),
                    None => false,
                };
                derived || old_names.contains(row.derived_name.as_str())
            },
        };
        if !here {
            let kept = row.clone();
            proof {
                text::lemma_views_push(r@, kept);
            }
            r.push(kept);
        }
        i = i + 1;
    }
    assert(all.take(i as int) =~= all);
    r
}

/// The file rows with another number.
fn other_files(rows: &Vec<FileRow>, file_id: i64) -> (r: Vec<FileRow>)
    ensures
        text::views(r@) == text::views(rows@).filter(file_elsewhere(file_id)),
{
    let ghost all = text::views(rows@);
    let ghost p = file_elsewhere(file_id);
    let mut r: Vec<FileRow> = Vec::new();
    let mut i: usize = 0;
    proof {
        reveal(Seq::filter);
    }
    assert(text::views(r@) =~= all.take(0).filter(p));
    while i < rows.len()
        invariant
            all == text::views(rows@),
            p == file_elsewhere(file_id),
            i <= rows@.len(),
            text::views(r@) == all.take(i as int).filter(p),
        decreases rows@.len() - i,
    {
        let row = &rows[i];
        proof {
            reveal(Seq::filter);
            assert(all.take(i + 1).drop_last() =~= all.take(i as int));
            assert(all.take(i + 1).last() == row@);
        }
        if row.id != file_id {
            let kept = row.clone();
            proof {
                text::lemma_views_push(r@, kept);
            }
            r.push(kept);
        }
        i = i + 1;
    }
    assert(all.take(i as int) =~= all);
    r
}

/// A set of the numbers.
fn id_set(ids: &Vec<i64>) -> (r: HashSet<i64>)
    ensures
        forall|id: i64| #[trigger] r@.contains(id) <==> ids@.contains(id),
{
    let mut r: HashSet<i64> = HashSet::new();
    add_ids(&mut r, ids);
    r
}

/// Adds numbers to a set.
fn add_ids(set: &mut HashSet<i64>, ids: &Vec<i64>)
    ensures
        forall|id: i64| #[trigger]
            final(set)@.contains(id) <==> old(set)@.contains(id) || ids@.contains(id),
{
    let mut i: usize = 0;
    while i < ids.len()
        invariant
            i <= ids@.len(),
            forall|id: i64| #[trigger]
                set@.contains(id) <==> old(set)@.contains(id) || ids@.take(i as int).contains(id),
        decreases ids@.len() - i,
    {
        set.insert(ids[i]);
        proof {
            assert(ids@.take(i + 1) =~= ids@.take(i as int).push(ids@[i as int]));
            assert forall|id: i64| #[trigger]
                ids@.take(i + 1).contains(id) <==> ids@.take(i as int).contains(id) || id
                    == ids@[i as int] by {
                lemma_contains_push(ids@.take(i as int), ids@[i as int], id);
            }
        }
        i = i + 1;
    }
    assert(ids@.take(i as int) =~= ids@);
}

/// Adds names to a set.
fn add_names(set: &mut NameSet, names: &Vec<String>)
    ensures
        forall|n: Seq<char>| #[trigger]
            final(set)@.contains(n) <==> old(set)@.contains(n) || text::views(names@).contains(n),
{
    let ghost all = text::views(names@);
    let mut i: usize = 0;
    while i < names.len()
        invariant
            all == text::views(names@),
            i <= names@.len(),
            forall|n: Seq<char>| #[trigger]
                set@.contains(n) <==> old(set)@.contains(n) || all.take(i as int).contains(n),
        decreases names@.len() - i,
    {
        set.insert(&names[i]);
        proof {
            assert(all.take(i + 1) =~= all.take(i as int).push(all[i as int]));
            assert forall|n: Seq<char>| #[trigger]
                all.take(i + 1).contains(n) <==> all.take(i as int).contains(n) || n
                    == all[i as int] by {
                lemma_contains_push(all.take(i as int), all[i as int], n);
            }
        }
        i = i + 1;
    }
    assert(all.take(i as int) =~= all);
}

/// Takes the symbols of a file out of the tables and, where asked for, the file itself.
pub fn delete_file_rows(tables: &mut Tables, path: &str, delete_file: bool) -> (r: Option<
    DeletedFileInfo,
>)
    ensures
        match r {
            Some(info) => {
                &&& row_of(old(tables)@.files, path@) matches Some(k) && info.file_id == old(
                    tables,
                )@.files[k].id
                &&& forall|id: i64| #[trigger]
                    info.old_def_ids@.contains(id) <==> defines_id(
                        old(tables)@.definitions,
                        info.file_id,
                        id,
                    )
                &&& forall|n: Seq<char>| #[trigger]
                    text::views(info.old_names@).contains(n) <==> defines_name(
                        old(tables)@.definitions,
                        info.file_id,
                        n,
                    )
                &&& final(tables)@ == without_file(old(tables)@, info.file_id, delete_file)
            },
            None => row_of(old(tables)@.files, path@) is None && *final(tables) == *old(tables),
        },
{
    let k: usize = match find_row(&tables.files, path) {
        Some(k) => k,
        None => {
            return None;
        },
    };
    let file_id: i64 = tables.files[k].id;
    let ghost before = tables@;
    assert(before.files[k as int].id == file_id);
    let (old_def_ids, old_names) = definitions_of_file(&tables.definitions, file_id);
    let ids = id_set(&old_def_ids);
    let mut names = NameSet::new();
    add_names(&mut names, &old_names);
    let inherits = other_inherits(
        &tables.inherits,
        Ghost(before.definitions),
        file_id,
        &ids,
        &names,
    );
    let calls = other_calls(&tables.calls, file_id);
    let refs = other_refs(&tables.refs, file_id);
    let definitions = other_definitions(&tables.definitions, file_id);
    tables.inherits = inherits;
    tables.calls = calls;
    tables.refs = refs;
    tables.definitions = definitions;
    if delete_file {
        tables.files = other_files(&tables.files, file_id);
    }
    Some(DeletedFileInfo { file_id, old_def_ids, old_names })
}

/// Writes the checksums of a file; a file without a row is passed over.
pub fn update_file_checksums(tables: &mut Tables, update: &IncrementalChecksumUpdate<'_>)
    ensures
        final(tables)@ == (TablesView {
            files: with_checksums(old(tables)@.files, update@),
            ..old(tables)@
        }),
{
    if let Some(k) = find_row(&tables.files, update.path) {
        let ghost before = tables@.files;
        let mut row = tables.files[k].clone();
        row.checksum = Some(update.checksum.to_owned());
        row.symbols_checksum = Some(update.symbols_checksum.to_owned());
        tables.files.set(k, row);
        assert(tables@.files =~= with_checksums(before, update@));
    }
}

/// Writes the row of a file and gives its number.
pub fn upsert_file_row(
    tables: &mut Tables,
    path: &str,
    language: &str,
    checksum: &str,
    symbols_checksum: &str,
) -> (r: i64)
    requires
        top(file_ids(old(tables)@.files)) < i64::MAX,
    ensures
        r == stored_number(old(tables)@.files, path@),
        final(tables)@ == (TablesView {
            files: upserted(
                old(tables)@.files,
                path@,
                language@,
                checksum@,
                symbols_checksum@,
            ),
            ..old(tables)@
        }),
{
    let ghost before = tables@.files;
    match find_row(&tables.files, path) {
        Some(k) => {
            let id: i64 = tables.files[k].id;
            let row = FileRow {
                id,
                path: path.to_owned(),
                language: language.to_owned(),
                checksum: Some(checksum.to_owned()),
                symbols_checksum: Some(symbols_checksum.to_owned()),
            };
            assert(before[k as int].id == id);
            tables.files.set(k, row);
            assert(tables@.files =~= upserted(
                before,
                path@,
                language@,
                checksum@,
                symbols_checksum@,
            ));
            id
        },
        None => {
            let id: i64 = top_file(&tables.files) + 1;
            let row = FileRow {
                id,
                path: path.to_owned(),
                language: language.to_owned(),
                checksum: Some(checksum.to_owned()),
                symbols_checksum: Some(symbols_checksum.to_owned()),
            };
            proof {
                text::lemma_views_push(tables.files@, row);
            }
            tables.files.push(row);
            id
        },
    }
}

/// Whether the symbols of a file can be numbered behind those of the tables.
pub open spec fn insert_fits(t: TablesView, f: FileSymbolsView) -> bool {
    &&& top(definition_ids(t.definitions)) + f.definitions.len() < i64::MAX
    &&& top(ref_ids(t.refs)) + f.references.len() < i64::MAX
    &&& top(call_ids(t.calls)) + f.calls.len() < i64::MAX
    &&& top(inherit_ids(t.inherits)) + f.inherits.len() < i64::MAX
}

/// The count of rows after the symbols of a file were inserted.
pub open spec fn counted(m: IncrementalDbUpdate, f: FileSymbolsView) -> IncrementalDbUpdate {
    IncrementalDbUpdate {
        definitions_inserted: (m.definitions_inserted + f.definitions.len()) as usize,
        references_inserted: (m.references_inserted + f.references.len()) as usize,
        calls_inserted: (m.calls_inserted + f.calls.len()) as usize,
        inheritance_inserted: (m.inheritance_inserted + f.inherits.len()) as usize,
    }
}

/// Adds the symbols of a file to the tables, linked to nothing yet, and counts them.
pub fn insert_file_symbols(
    tables: &mut Tables,
    file_id: i64,
    symbols: &FileSymbols,
    metrics: &mut IncrementalDbUpdate,
)
    requires
        insert_fits(old(tables)@, symbols@),
        old(metrics).definitions_inserted + symbols@.definitions.len() <= usize::MAX,
        old(metrics).references_inserted + symbols@.references.len() <= usize::MAX,
        old(metrics).calls_inserted + symbols@.calls.len() <= usize::MAX,
        old(metrics).inheritance_inserted + symbols@.inherits.len() <= usize::MAX,
    ensures
        final(tables)@ == inserted(old(tables)@, file_id, symbols@),
        *final(metrics) == counted(*old(metrics), symbols@),
{
    let ghost before = tables@;
    let ghost f = symbols@;
    let ghost wanted = inserted(before, file_id, f);
    let base: i64 = top_definition(&tables.definitions);
    let mut i: usize = 0;
    assert(before.definitions =~= wanted.definitions.take(before.definitions.len() as int));
    while i < symbols.definitions.len()
        invariant
            f == symbols@,
            insert_fits(before, f),
            base == top(definition_ids(before.definitions)),
            base >= 0,
            wanted == inserted(before, file_id, f),
            i <= symbols.definitions@.len(),
            tables@.definitions == wanted.definitions.take(before.definitions.len() + i),
            tables@.files == before.files,
            tables@.refs == before.refs,
            tables@.calls == before.calls,
            tables@.inherits == before.inherits,
        decreases symbols.definitions@.len() - i,
    {
        let d = &symbols.definitions[i];
        let row = make_definition_row(base + (i as i64) + 1, Some(file_id), d);
        proof {
            let n = before.definitions.len() as int;
            assert(f.definitions[i as int] == d@);
            assert(wanted.definitions[n + i] == row@);
            text::lemma_views_push(tables.definitions@, row);
            assert(wanted.definitions.take(n + i + 1) =~= wanted.definitions.take(n + i).push(
                row@,
            ));
        }
        tables.definitions.push(row);
        i = i + 1;
    }
    assert(wanted.definitions.take(before.definitions.len() + i) =~= wanted.definitions);
    metrics.definitions_inserted = metrics.definitions_inserted + symbols.definitions.len();

    let base: i64 = top_ref(&tables.refs);
    i = 0;
    assert(before.refs =~= wanted.refs.take(before.refs.len() as int));
    while i < symbols.references.len()
        invariant
            f == symbols@,
            insert_fits(before, f),
            base == top(ref_ids(before.refs)),
            base >= 0,
            wanted == inserted(before, file_id, f),
            i <= symbols.references@.len(),
            tables@.definitions == wanted.definitions,
            tables@.files == before.files,
            tables@.refs == wanted.refs.take(before.refs.len() + i),
            tables@.calls == before.calls,
            tables@.inherits == before.inherits,
        decreases symbols.references@.len() - i,
    {
        let x = &symbols.references[i];
        let row = make_ref_row(base + (i as i64) + 1, Some(file_id), None, x);
        proof {
            let n = before.refs.len() as int;
            assert(f.references[i as int] == x@);
            assert(wanted.refs[n + i] == row@);
            text::lemma_views_push(tables.refs@, row);
            assert(wanted.refs.take(n + i + 1) =~= wanted.refs.take(n + i).push(row@));
        }
        tables.refs.push(row);
        i = i + 1;
    }
    assert(wanted.refs.take(before.refs.len() + i) =~= wanted.refs);
    metrics.references_inserted = metrics.references_inserted + symbols.references.len();

    let base: i64 = top_call(&tables.calls);
    i = 0;
    assert(before.calls =~= wanted.calls.take(before.calls.len() as int));
    while i < symbols.calls.len()
        invariant
            f == symbols@,
            insert_fits(before, f),
            base == top(call_ids(before.calls)),
            base >= 0,
            wanted == inserted(before, file_id, f),
            i <= symbols.calls@.len(),
            tables@.definitions == wanted.definitions,
            tables@.files == before.files,
            tables@.refs == wanted.refs,
            tables@.calls == wanted.calls.take(before.calls.len() + i),
            tables@.inherits == before.inherits,
        decreases symbols.calls@.len() - i,
    {
        let c = &symbols.calls[i];
        let row = make_call_row(base + (i as i64) + 1, Some(file_id), None, None, c);
        proof {
            let n = before.calls.len() as int;
            assert(f.calls[i as int] == c@);
            assert(wanted.calls[n + i] == row@);
            text::lemma_views_push(tables.calls@, row);
            assert(wanted.calls.take(n + i + 1) =~= wanted.calls.take(n + i).push(row@));
        }
        tables.calls.push(row);
        i = i + 1;
    }
    assert(wanted.calls.take(before.calls.len() + i) =~= wanted.calls);
    metrics.calls_inserted = metrics.calls_inserted + symbols.calls.len();

    let base: i64 = top_inherit(&tables.inherits);
    i = 0;
    assert(before.inherits =~= wanted.inherits.take(before.inherits.len() as int));
    while i < symbols.inherits.len()
        invariant
            f == symbols@,
            insert_fits(before, f),
            base == top(inherit_ids(before.inherits)),
            base >= 0,
            wanted == inserted(before, file_id, f),
            i <= symbols.inherits@.len(),
            tables@.definitions == wanted.definitions,
            tables@.files == before.files,
            tables@.refs == wanted.refs,
            tables@.calls == wanted.calls,
            tables@.inherits == wanted.inherits.take(before.inherits.len() + i),
        decreases symbols.inherits@.len() - i,
    {
        let e = &symbols.inherits[i];
        let row = make_inherit_row(base + (i as i64) + 1, Some(file_id), None, None, e);
        proof {
            let n = before.inherits.len() as int;
            assert(f.inherits[i as int] == e@);
            assert(wanted.inherits[n + i] == row@);
            text::lemma_views_push(tables.inherits@, row);
            assert(wanted.inherits.take(n + i + 1) =~= wanted.inherits.take(n + i).push(row@));
        }
        tables.inherits.push(row);
        i = i + 1;
    }
    assert(wanted.inherits.take(before.inherits.len() + i) =~= wanted.inherits);
    metrics.inheritance_inserted = metrics.inheritance_inserted + symbols.inherits.len();
}

/// Adds the names that a file defines.
fn add_definition_names(symbols: &FileSymbols, names: &mut NameSet)
    ensures
        final(names)@ == old(names)@.union(names_defined(symbols@)),
{
    let ghost f = symbols@;
    let mut i: usize = 0;
    while i < symbols.definitions.len()
        invariant
            f == symbols@,
            i <= symbols.definitions@.len(),
            forall|n: Seq<char>| #[trigger]
                names@.contains(n) <==> old(names)@.contains(n) || (exists|k: int|
                    0 <= k < i && ((#[trigger] f.definitions[k]).name == n
                        || f.definitions[k].qualified_name == n)),
        decreases symbols.definitions@.len() - i,
    {
        let d = &symbols.definitions[i];
        assert(f.definitions[i as int] == d@);
        names.insert(&d.name);
        names.insert(&d.qualified_name);
        i = i + 1;
    }
    assert(names@ =~= old(names)@.union(names_defined(f)));
}

/// What an update has changed so far.
pub struct Changes {
    pub files: HashSet<i64>,
    pub gone: HashSet<i64>,
    pub propagate: NameSet,
}

impl View for Changes {
    type V = ChangeView;

    open spec fn view(&self) -> ChangeView {
        ChangeView {
            files: self.files@,
            gone: self.gone@,
            propagate: self.propagate@,
        }
    }
}

/// Finds definition rows by their names.
struct RowLookup {
    by_name: NameLookup,
    by_qualified_name: NameLookup,
}

impl RowLookup {
    spec fn of(self, definitions: Seq<DefinitionRowView>) -> bool {
        &&& forall|n: Seq<char>| #[trigger]
            self.by_name.at(n) == index::spots(row_names(definitions), n)
        &&& forall|n: Seq<char>| #[trigger]
            self.by_qualified_name.at(n) == index::spots(row_qualified_names(definitions), n)
    }

    /// Finds the rows by their names.
    fn new(definitions: &Vec<DefinitionRow>) -> (r: Self)
        ensures
            r.of(text::views(definitions@)),
    {
        let ghost all = text::views(definitions@);
        let ghost names = row_names(all);
        let ghost qualified = row_qualified_names(all);
        let mut by_name = NameLookup::new();
        let mut by_qualified_name = NameLookup::new();
        let mut i: usize = 0;
        while i < definitions.len()
            invariant
                all == text::views(definitions@),
                names == row_names(all),
                qualified == row_qualified_names(all),
                i <= definitions@.len(),
                forall|n: Seq<char>| #[trigger]
                    by_name.at(n) == index::spots(names.take(i as int), n),
                forall|n: Seq<char>| #[trigger]
                    by_qualified_name.at(n) == index::spots(qualified.take(i as int), n),
            decreases definitions@.len() - i,
        {
            let d = &definitions[i];
            by_name.add(&d.name, i);
            by_qualified_name.add(&d.qualified_name, i);
            proof {
                assert(names.take(i + 1).drop_last() =~= names.take(i as int));
                assert(names.take(i + 1).last() == d.name@);
                assert(qualified.take(i + 1).drop_last() =~= qualified.take(i as int));
                assert(qualified.take(i + 1).last() == d.qualified_name@);
            }
            i = i + 1;
        }
        proof {
            assert(names.take(i as int) =~= names);
            assert(qualified.take(i as int) =~= qualified);
        }
        RowLookup { by_name, by_qualified_name }
    }

    /// The number of the definition that a reference resolves to.
    fn resolve(&self, definitions: &Vec<DefinitionRow>, name: &str) -> (r: Option<i64>)
        requires
            self.of(text::views(definitions@)),
        ensures
            r == row_resolution(text::views(definitions@), name@),
    {
        let ghost all = text::views(definitions@);
        assert(definitions.len() == definitions@.len());
        proof {
            index::lemma_spots(row_names(all), name@);
            index::lemma_spots(row_qualified_names(all), name@);
        }
        if let Some(exact) = self.by_qualified_name.get(name) {
            if exact.len() == 1 {
                assert(index::spots(row_qualified_names(all), name@)[0] < all.len());
                return Some(definitions[exact[0]].id);
            }
            if exact.len() > 1 {
                return None;
            }
        }
        match self.by_name.get(name) {
            Some(at) => if at.len() == 1 {
                assert(index::spots(row_names(all), name@)[0] < all.len());
                Some(definitions[at[0]].id)
            } else {
                None
            },
            None => None,
        }
    }
}

impl RowLookup {
    /// The number of the definition that an end of a call or of an inheritance edge is linked to.
    fn link(&self, definitions: &Vec<DefinitionRow>, name: &str) -> (r: Option<i64>)
        requires
            self.of(text::views(definitions@)),
        ensures
            r == row_link(text::views(definitions@), name@),
    {
        let ghost all = text::views(definitions@);
        assert(definitions.len() == definitions@.len());
        proof {
            index::lemma_spots(row_names(all), name@);
            index::lemma_spots(row_qualified_names(all), name@);
        }
        if let Some(exact) = self.by_qualified_name.get(name) {
            if exact.len() > 0 {
                let ghost ids = definition_ids(index::picked(all, exact@));
                let mut r: i64 = 0;
                let mut i: usize = 0;
                while i < exact.len()
                    invariant
                        all == text::views(definitions@),
                        ids == definition_ids(index::picked(all, exact@)),
                        forall|k: int|
                            0 <= k < exact@.len() ==> (#[trigger] exact@[k]) < definitions@.len(),
                        i <= exact@.len(),
                        r == top(ids.take(i as int)),
                    decreases exact@.len() - i,
                {
                    let id: i64 = definitions[exact[i]].id;
                    proof {
                        assert(ids.take(i + 1).drop_last() =~= ids.take(i as int));
                        assert(ids.take(i + 1).last() == id);
                    }
                    if id > r {
                        r = id;
                    }
                    i = i + 1;
                }
                assert(ids.take(i as int) =~= ids);
                return Some(r);
            }
        }
        match self.by_name.get(name) {
            Some(at) => if at.len() == 1 {
                assert(index::spots(row_names(all), name@)[0] < all.len());
                Some(definitions[at[0]].id)
            } else {
                None
            },
            None => None,
        }
    }
}

/// Whether a number is in a set.
fn holds(set: &HashSet<i64>, id: Option<i64>) -> (r: bool)
    ensures
        r == (id matches Some(id) && set@.contains(id)),
{
    match id {
        Some(id) => set.contains(&id),
        None => false,
    }
}

/// Links every row anew that an update concerns.
pub fn relink_symbol_ids(tables: &mut Tables, changes: &Changes)
    ensures
        final(tables)@ == relinked(old(tables)@, changes@),
{
    let ghost before = tables@;
    let ghost wanted = relinked(before, changes@);
    let lookup = RowLookup::new(&tables.definitions);
    let mut i: usize = 0;
    while i < tables.refs.len()
        invariant
            lookup.of(before.definitions),
            wanted == relinked(before, changes@),
            tables@.files == before.files,
            tables@.definitions == before.definitions,
            tables@.calls == before.calls,
            tables@.inherits == before.inherits,
            tables.refs@.len() == before.refs.len(),
            i <= tables.refs@.len(),
            forall|k: int| 0 <= k < i ==> (#[trigger] tables.refs@[k])@ == wanted.refs[k],
            forall|k: int| i <= k < before.refs.len() ==> (#[trigger] tables.refs@[k])@ == before.refs[k],
        decreases tables.refs@.len() - i,
    {
        let row = &tables.refs[i];
        assert(row@ == before.refs[i as int]);
        if holds(&changes.files, row.file_id) || holds(&changes.gone, row.def_id)
            || changes.propagate.contains(row.name.as_str()) {
            let mut linked = row.clone();
            linked.def_id = lookup.resolve(&tables.definitions, row.name.as_str());
            tables.refs.set(i, linked);
        }
        i = i + 1;
    }
    assert(tables@.refs =~= wanted.refs);
    i = 0;
    while i < tables.calls.len()
        invariant
            lookup.of(before.definitions),
            wanted == relinked(before, changes@),
            tables@.files == before.files,
            tables@.definitions == before.definitions,
            tables@.refs == wanted.refs,
            tables@.inherits == before.inherits,
            tables.calls@.len() == before.calls.len(),
            i <= tables.calls@.len(),
            forall|k: int| 0 <= k < i ==> (#[trigger] tables.calls@[k])@ == wanted.calls[k],
            forall|k: int|
                i <= k < before.calls.len() ==> (#[trigger] tables.calls@[k])@ == before.calls[k],
        decreases tables.calls@.len() - i,
    {
        let row = &tables.calls[i];
        assert(row@ == before.calls[i as int]);
        if holds(&changes.files, row.file_id) || holds(&changes.gone, row.caller_id) || holds(
            &changes.gone,
            row.callee_id,
        ) || changes.propagate.contains(row.caller_name.as_str()) || changes.propagate.contains(
            row.callee_name.as_str(),
        ) {
            let mut linked = row.clone();
            linked.caller_id = lookup.link(&tables.definitions, row.caller_name.as_str());
            linked.callee_id = lookup.link(&tables.definitions, row.callee_name.as_str());
            tables.calls.set(i, linked);
        }
        i = i + 1;
    }
    assert(tables@.calls =~= wanted.calls);
    i = 0;
    while i < tables.inherits.len()
        invariant
            lookup.of(before.definitions),
            wanted == relinked(before, changes@),
            tables@.files == before.files,
            tables@.definitions == before.definitions,
            tables@.refs == wanted.refs,
            tables@.calls == wanted.calls,
            tables.inherits@.len() == before.inherits.len(),
            i <= tables.inherits@.len(),
            forall|k: int| 0 <= k < i ==> (#[trigger] tables.inherits@[k])@ == wanted.inherits[k],
            forall|k: int|
                i <= k < before.inherits.len() ==> (#[trigger] tables.inherits@[k])@
                    == before.inherits[k],
        decreases tables.inherits@.len() - i,
    {
        let row = &tables.inherits[i];
        assert(row@ == before.inherits[i as int]);
        if holds(&changes.files, row.file_id) || holds(&changes.gone, row.derived_id) || holds(
            &changes.gone,
            row.base_id,
        ) || changes.propagate.contains(row.derived_name.as_str()) || changes.propagate.contains(
            row.base_name.as_str(),
        ) {
            let mut linked = row.clone();
            linked.derived_id = lookup.link(&tables.definitions, row.derived_name.as_str());
            linked.base_id = lookup.link(&tables.definitions, row.base_name.as_str());
            tables.inherits.set(i, linked);
        }
        i = i + 1;
    }
    assert(tables@.inherits =~= wanted.inherits);
}

/// Takes a file out, with all that it defines.
fn remove_file(tables: &mut Tables, changes: &mut Changes, path: &str)
    ensures
        ({
            let u = removed(UpdateView { tables: old(tables)@, changes: old(changes)@ }, path@);
            final(tables)@ == u.tables && final(changes)@ == u.changes
        }),
{
    let ghost before = tables@;
    if let Some(info) = delete_file_rows(tables, path, true) {
        let ghost u = removed(UpdateView { tables: before, changes: old(changes)@ }, path@);
        add_ids(&mut changes.gone, &info.old_def_ids);
        add_names(&mut changes.propagate, &info.old_names);
        proof {
            assert(changes@.gone =~= u.changes.gone);
            assert(changes@.propagate =~= u.changes.propagate);
        }
    }
}

/// Whether a file can be replaced: its number and those of its symbols can be counted.
pub open spec fn replace_fits(t: TablesView, f: FileSymbolsView) -> bool {
    top(file_ids(t.files)) < i64::MAX && insert_fits(t, f)
}

/// The largest of fewer numbers is not larger.
proof fn lemma_top_filter<T>(s: Seq<T>, p: spec_fn(T) -> bool, id: spec_fn(T) -> i64)
    ensures
        top(s.filter(p).map_values(id)) <= top(s.map_values(id)),
    decreases s.len(),
{
    reveal(Seq::filter);
    if s.len() > 0 {
        let short = s.drop_last();
        lemma_top_filter(short, p, id);
        assert(s.map_values(id).drop_last() =~= short.map_values(id));
        if p(s.last()) {
            assert(s.filter(p).map_values(id).drop_last() =~= short.filter(p).map_values(id));
        }
    }
}

/// Taking symbols out does not raise the largest numbers.
pub proof fn lemma_top_cleared(t: TablesView, file_id: i64)
    ensures
        top(definition_ids(cleared(t, file_id).definitions)) <= top(definition_ids(t.definitions)),
        top(ref_ids(cleared(t, file_id).refs)) <= top(ref_ids(t.refs)),
        top(call_ids(cleared(t, file_id).calls)) <= top(call_ids(t.calls)),
        top(inherit_ids(cleared(t, file_id).inherits)) <= top(inherit_ids(t.inherits)),
        top(file_ids(t.files.filter(file_elsewhere(file_id)))) <= top(file_ids(t.files)),
{
    lemma_top_filter(
        t.definitions,
        definition_elsewhere(file_id),
        |r: DefinitionRowView| r.id,
    );
    lemma_top_filter(t.refs, ref_elsewhere(file_id), |r: RefRowView| r.id);
    lemma_top_filter(t.calls, call_elsewhere(file_id), |r: CallRowView| r.id);
    lemma_top_filter(
        t.inherits,
        inherit_elsewhere(t.definitions, file_id),
        |r: InheritRowView| r.id,
    );
    lemma_top_filter(t.files, file_elsewhere(file_id), |r: FileRowView| r.id);
}

/// Puts the symbols of a file in the place of those stored of it.
fn replace_file(
    tables: &mut Tables,
    changes: &mut Changes,
    update: &IncrementalFileUpdate<'_>,
    metrics: &mut IncrementalDbUpdate,
)
    requires
        replace_fits(old(tables)@, update@.symbols),
        old(metrics).definitions_inserted + update@.symbols.definitions.len() <= usize::MAX,
        old(metrics).references_inserted + update@.symbols.references.len() <= usize::MAX,
        old(metrics).calls_inserted + update@.symbols.calls.len() <= usize::MAX,
        old(metrics).inheritance_inserted + update@.symbols.inherits.len() <= usize::MAX,
    ensures
        ({
            let u = replaced(UpdateView { tables: old(tables)@, changes: old(changes)@ }, update@);
            final(tables)@ == u.tables && final(changes)@ == u.changes
        }),
        *final(metrics) == counted(*old(metrics), update@.symbols),
{
    let ghost t = tables@;
    let ghost c = changes@;
    let ghost path = update.symbols.file@;
    let ghost number = stored_number(t.files, path);
    let ghost u = replaced(UpdateView { tables: t, changes: c }, update@);
    proof {
        lemma_top_cleared(t, number);
    }
    let deleted = delete_file_rows(tables, update.symbols.file.as_str(), false);
    let file_id = upsert_file_row(
        tables,
        update.symbols.file.as_str(),
        update.symbols.language.as_str(),
        update.checksum,
        update.symbols_checksum,
    );
    assert(file_id == number);
    if let Some(info) = deleted {
        add_ids(&mut changes.gone, &info.old_def_ids);
        add_names(&mut changes.propagate, &info.old_names);
    }
    add_definition_names(update.symbols, &mut changes.propagate);
    changes.files.insert(file_id);
    proof {
        assert(changes@.files =~= u.changes.files);
        assert(changes@.gone =~= u.changes.gone);
        assert(changes@.propagate =~= u.changes.propagate);
    }
    insert_file_symbols(tables, file_id, update.symbols, metrics);
}

/// How many definitions some files have.
pub open spec fn total_definitions(fs: Seq<FileUpdateView>) -> nat
    decreases fs.len(),
{
    if fs.len() == 0 {
        0
    } else {
        total_definitions(fs.drop_last()) + fs.last().symbols.definitions.len()
    }
}

/// How many references some files have.
pub open spec fn total_references(fs: Seq<FileUpdateView>) -> nat
    decreases fs.len(),
{
    if fs.len() == 0 {
        0
    } else {
        total_references(fs.drop_last()) + fs.last().symbols.references.len()
    }
}

/// How many calls some files have.
pub open spec fn total_calls(fs: Seq<FileUpdateView>) -> nat
    decreases fs.len(),
{
    if fs.len() == 0 {
        0
    } else {
        total_calls(fs.drop_last()) + fs.last().symbols.calls.len()
    }
}

/// How many inheritance edges some files have.
pub open spec fn total_inherits(fs: Seq<FileUpdateView>) -> nat
    decreases fs.len(),
{
    if fs.len() == 0 {
        0
    } else {
        total_inherits(fs.drop_last()) + fs.last().symbols.inherits.len()
    }
}

/// Whether the rows of an update can be numbered and counted.
pub open spec fn update_fits(t: TablesView, fs: Seq<FileUpdateView>) -> bool {
    &&& top(file_ids(t.files)) + fs.len() < i64::MAX
    &&& top(definition_ids(t.definitions)) + total_definitions(fs) < i64::MAX
    &&& top(ref_ids(t.refs)) + total_references(fs) < i64::MAX
    &&& top(call_ids(t.calls)) + total_calls(fs) < i64::MAX
    &&& top(inherit_ids(t.inherits)) + total_inherits(fs) < i64::MAX
    &&& total_definitions(fs) <= usize::MAX
    &&& total_references(fs) <= usize::MAX
    &&& total_calls(fs) <= usize::MAX
    &&& total_inherits(fs) <= usize::MAX
}

/// The first files have no more symbols than all of them.
pub proof fn lemma_totals(fs: Seq<FileUpdateView>, i: int)
    requires
        0 <= i < fs.len(),
    ensures
        total_definitions(fs.take(i + 1)) == total_definitions(fs.take(i))
            + fs[i].symbols.definitions.len(),
        total_references(fs.take(i + 1)) == total_references(fs.take(i))
            + fs[i].symbols.references.len(),
        total_calls(fs.take(i + 1)) == total_calls(fs.take(i)) + fs[i].symbols.calls.len(),
        total_inherits(fs.take(i + 1)) == total_inherits(fs.take(i))
            + fs[i].symbols.inherits.len(),
        total_definitions(fs.take(i + 1)) <= total_definitions(fs),
        total_references(fs.take(i + 1)) <= total_references(fs),
        total_calls(fs.take(i + 1)) <= total_calls(fs),
        total_inherits(fs.take(i + 1)) <= total_inherits(fs),
    decreases fs.len() - i,
{
    assert(fs.take(i + 1).drop_last() =~= fs.take(i));
    assert(fs.take(i + 1).last() == fs[i]);
    if i + 1 == fs.len() {
        assert(fs.take(i + 1) =~= fs);
    } else {
        lemma_totals(fs, i + 1);
    }
}

/// Whether the rows of an update can be numbered and counted.
pub fn can_apply(tables: &Tables, updates: &Vec<IncrementalFileUpdate<'_>>) -> (r: bool)
    ensures
        r == update_fits(tables@, text::views(updates@)),
{
    let ghost fs = text::views(updates@);
    let mut definitions: usize = 0;
    let mut references: usize = 0;
    let mut calls: usize = 0;
    let mut inherits: usize = 0;
    let mut i: usize = 0;
    while i < updates.len()
        invariant
            fs == text::views(updates@),
            i <= updates@.len(),
            definitions == total_definitions(fs.take(i as int)),
            references == total_references(fs.take(i as int)),
            calls == total_calls(fs.take(i as int)),
            inherits == total_inherits(fs.take(i as int)),
        decreases updates@.len() - i,
    {
        let f = updates[i].symbols;
        proof {
            assert(fs[i as int] == updates@[i as int]@);
            lemma_totals(fs, i as int);
        }
        if f.definitions.len() > usize::MAX - definitions || f.references.len() > usize::MAX
            - references || f.calls.len() > usize::MAX - calls || f.inherits.len() > usize::MAX
            - inherits {
            return false;
        }
        definitions = definitions + f.definitions.len();
        references = references + f.references.len();
        calls = calls + f.calls.len();
        inherits = inherits + f.inherits.len();
        i = i + 1;
    }
    assert(fs.take(i as int) =~= fs);
    let limit: u128 = i64::MAX as u128;
    proof {
        lemma_top_nonnegative(file_ids(tables@.files));
        lemma_top_nonnegative(definition_ids(tables@.definitions));
        lemma_top_nonnegative(ref_ids(tables@.refs));
        lemma_top_nonnegative(call_ids(tables@.calls));
        lemma_top_nonnegative(inherit_ids(tables@.inherits));
    }
    (top_file(&tables.files) as u128) + (updates.len() as u128) < limit && (top_definition(
        &tables.definitions,
    ) as u128) + (definitions as u128) < limit && (top_ref(&tables.refs) as u128) + (
    references as u128) < limit && (top_call(&tables.calls) as u128) + (calls as u128) < limit && (
    top_inherit(&tables.inherits) as u128) + (inherits as u128) < limit
}

/// Rows that are numbered behind others raise the largest number by their count.
proof fn lemma_top_append(ids: Seq<i64>, base: int, n: nat)
    requires
        base == top(ids),
        base + n <= i64::MAX,
    ensures
        top(ids + Seq::new(n, |k: int| (base + k + 1) as i64)) == base + n,
        base >= 0,
    decreases n,
{
    lemma_top_nonnegative(ids);
    let more = Seq::new(n, |k: int| (base + k + 1) as i64);
    if n == 0 {
        assert(ids + more =~= ids);
    } else {
        let fewer = Seq::new((n - 1) as nat, |k: int| (base + k + 1) as i64);
        lemma_top_append(ids, base, (n - 1) as nat);
        assert((ids + more).drop_last() =~= ids + fewer);
    }
}

pub proof fn lemma_top_nonnegative(ids: Seq<i64>)
    ensures
        top(ids) >= 0,
    decreases ids.len(),
{
    if ids.len() > 0 {
        lemma_top_nonnegative(ids.drop_last());
    }
}

/// The largest numbers after the symbols of a file were inserted.
proof fn lemma_top_inserted(t: TablesView, file_id: i64, f: FileSymbolsView)
    requires
        insert_fits(t, f),
    ensures
        ({
            let r = inserted(t, file_id, f);
            &&& top(definition_ids(r.definitions)) == top(definition_ids(t.definitions))
                + f.definitions.len()
            &&& top(ref_ids(r.refs)) == top(ref_ids(t.refs)) + f.references.len()
            &&& top(call_ids(r.calls)) == top(call_ids(t.calls)) + f.calls.len()
            &&& top(inherit_ids(r.inherits)) == top(inherit_ids(t.inherits)) + f.inherits.len()
        }),
{
    let r = inserted(t, file_id, f);
    let d = top(definition_ids(t.definitions));
    lemma_top_append(definition_ids(t.definitions), d, f.definitions.len());
    assert(definition_ids(r.definitions) =~= definition_ids(t.definitions) + Seq::new(
        f.definitions.len(),
        |k: int| (d + k + 1) as i64,
    ));
    let d = top(ref_ids(t.refs));
    lemma_top_append(ref_ids(t.refs), d, f.references.len());
    assert(ref_ids(r.refs) =~= ref_ids(t.refs) + Seq::new(
        f.references.len(),
        |k: int| (d + k + 1) as i64,
    ));
    let d = top(call_ids(t.calls));
    lemma_top_append(call_ids(t.calls), d, f.calls.len());
    assert(call_ids(r.calls) =~= call_ids(t.calls) + Seq::new(
        f.calls.len(),
        |k: int| (d + k + 1) as i64,
    ));
    let d = top(inherit_ids(t.inherits));
    lemma_top_append(inherit_ids(t.inherits), d, f.inherits.len());
    assert(inherit_ids(r.inherits) =~= inherit_ids(t.inherits) + Seq::new(
        f.inherits.len(),
        |k: int| (d + k + 1) as i64,
    ));
}

/// Writing the row of a file raises the largest number of a file by one at most.
pub proof fn lemma_top_upserted(
    files: Seq<FileRowView>,
    path: Seq<char>,
    language: Seq<char>,
    checksum: Seq<char>,
    symbols_checksum: Seq<char>,
)
    requires
        files.len() <= usize::MAX,
        top(file_ids(files)) < i64::MAX,
    ensures
        top(file_ids(upserted(files, path, language, checksum, symbols_checksum))) <= top(
            file_ids(files),
        ) + 1,
{
    let after = upserted(files, path, language, checksum, symbols_checksum);
    lemma_top_nonnegative(file_ids(files));
    match row_of(files, path) {
        Some(k) => {
            index::lemma_spots(row_paths(files), path);
            assert(k == index::spots(row_paths(files), path)[0]);
            assert(file_ids(after) =~= file_ids(files));
        },
        None => {
            assert(file_ids(after).drop_last() =~= file_ids(files));
        },
    }
}

/// Whether the numbers of tables lie within limits.
pub open spec fn within(t: TablesView, f: int, d: int, r: int, c: int, i: int) -> bool {
    &&& top(file_ids(t.files)) <= f
    &&& top(definition_ids(t.definitions)) <= d
    &&& top(ref_ids(t.refs)) <= r
    &&& top(call_ids(t.calls)) <= c
    &&& top(inherit_ids(t.inherits)) <= i
}

/// Replacing a file raises the largest numbers by what the file has at most.
pub proof fn lemma_within_replaced(
    u: UpdateView,
    f: FileUpdateView,
    files: int,
    d: int,
    r: int,
    c: int,
    i: int,
)
    requires
        u.tables.files.len() <= usize::MAX,
        within(u.tables, files, d, r, c, i),
        replace_fits(u.tables, f.symbols),
    ensures
        within(
            replaced(u, f).tables,
            files + 1,
            d + f.symbols.definitions.len(),
            r + f.symbols.references.len(),
            c + f.symbols.calls.len(),
            i + f.symbols.inherits.len(),
        ),
{
    let t = u.tables;
    let path = f.symbols.file;
    let number = stored_number(t.files, path);
    let emptied = if row_of(t.files, path) is Some {
        cleared(t, number)
    } else {
        t
    };
    let listed = TablesView {
        files: upserted(t.files, path, f.symbols.language, f.checksum, f.symbols_checksum),
        ..emptied
    };
    lemma_top_cleared(t, number);
    lemma_top_upserted(t.files, path, f.symbols.language, f.checksum, f.symbols_checksum);
    lemma_top_inserted(listed, number, f.symbols);
}

/// Applies an update to the tables: writes checksums, takes files out, replaces files, and
/// links every row anew that this concerns. Gives the number of rows inserted.
pub fn apply_incremental_update(
    tables: &mut Tables,
    updates: &Vec<IncrementalFileUpdate<'_>>,
    checksum_updates: &Vec<IncrementalChecksumUpdate<'_>>,
    removed_paths: &Vec<String>,
) -> (r: IncrementalDbUpdate)
    requires
        update_fits(old(tables)@, text::views(updates@)),
    ensures
        final(tables)@ == updated(
            old(tables)@,
            text::views(updates@),
            text::views(checksum_updates@),
            text::views(removed_paths@),
        ),
        r == (IncrementalDbUpdate {
            definitions_inserted: total_definitions(text::views(updates@)) as usize,
            references_inserted: total_references(text::views(updates@)) as usize,
            calls_inserted: total_calls(text::views(updates@)) as usize,
            inheritance_inserted: total_inherits(text::views(updates@)) as usize,
        }),
{
    let ghost t = tables@;
    let ghost fs = text::views(updates@);
    let ghost cs = text::views(checksum_updates@);
    let ghost ps = text::views(removed_paths@);
    let mut metrics = IncrementalDbUpdate::default();
    let mut changes = Changes {
        files: HashSet::new(),
        gone: HashSet::new(),
        propagate: NameSet::new(),
    };
    let ghost fmax = top(file_ids(t.files));
    let ghost dmax = top(definition_ids(t.definitions));
    let ghost rmax = top(ref_ids(t.refs));
    let ghost cmax = top(call_ids(t.calls));
    let ghost imax = top(inherit_ids(t.inherits));
    let mut i: usize = 0;
    while i < checksum_updates.len()
        invariant
            cs == text::views(checksum_updates@),
            i <= checksum_updates@.len(),
            tables@ == (TablesView { files: all_checksums(t.files, cs.take(i as int)), ..t }),
            within(tables@, fmax, dmax, rmax, cmax, imax),
        decreases checksum_updates@.len() - i,
    {
        let ghost before = tables@.files;
        assert(tables.files.len() == tables.files@.len());
        update_file_checksums(tables, &checksum_updates[i]);
        proof {
            assert(cs.take(i + 1).drop_last() =~= cs.take(i as int));
            assert(cs.take(i + 1).last() == checksum_updates@[i as int]@);
            index::lemma_spots(row_paths(before), cs[i as int].path);
            if let Some(k) = row_of(before, cs[i as int].path) {
                assert(k == index::spots(row_paths(before), cs[i as int].path)[0]);
            }
            assert(file_ids(tables@.files) =~= file_ids(before));
        }
        i = i + 1;
    }
    assert(cs.take(i as int) =~= cs);
    let ghost start = UpdateView { tables: tables@, changes: no_changes() };
    proof {
        assert(changes@.files =~= Set::<i64>::empty());
        assert(changes@.gone =~= Set::<i64>::empty());
    }
    i = 0;
    while i < removed_paths.len()
        invariant
            ps == text::views(removed_paths@),
            i <= removed_paths@.len(),
            ({
                let u = all_removed(start, ps.take(i as int));
                tables@ == u.tables && changes@ == u.changes
            }),
            within(tables@, fmax, dmax, rmax, cmax, imax),
        decreases removed_paths@.len() - i,
    {
        let ghost before = tables@;
        remove_file(tables, &mut changes, removed_paths[i].as_str());
        proof {
            assert(ps.take(i + 1).drop_last() =~= ps.take(i as int));
            assert(ps.take(i + 1).last() == removed_paths@[i as int]@);
            if let Some(k) = row_of(before.files, ps[i as int]) {
                lemma_top_cleared(before, before.files[k].id);
            }
        }
        i = i + 1;
    }
    assert(ps.take(i as int) =~= ps);
    let ghost middle = UpdateView { tables: tables@, changes: changes@ };
    i = 0;
    while i < updates.len()
        invariant
            fs == text::views(updates@),
            update_fits(t, fs),
            fmax == top(file_ids(t.files)),
            dmax == top(definition_ids(t.definitions)),
            rmax == top(ref_ids(t.refs)),
            cmax == top(call_ids(t.calls)),
            imax == top(inherit_ids(t.inherits)),
            i <= updates@.len(),
            ({
                let u = all_replaced(middle, fs.take(i as int));
                tables@ == u.tables && changes@ == u.changes
            }),
            within(
                tables@,
                fmax + i,
                dmax + total_definitions(fs.take(i as int)),
                rmax + total_references(fs.take(i as int)),
                cmax + total_calls(fs.take(i as int)),
                imax + total_inherits(fs.take(i as int)),
            ),
            metrics.definitions_inserted == total_definitions(fs.take(i as int)),
            metrics.references_inserted == total_references(fs.take(i as int)),
            metrics.calls_inserted == total_calls(fs.take(i as int)),
            metrics.inheritance_inserted == total_inherits(fs.take(i as int)),
        decreases updates@.len() - i,
    {
        let update = &updates[i];
        let ghost u = UpdateView { tables: tables@, changes: changes@ };
        assert(tables.files.len() == tables.files@.len());
        proof {
            assert(fs[i as int] == update@);
            lemma_totals(fs, i as int);
            lemma_within_replaced(
                u,
                update@,
                fmax + i,
                dmax + total_definitions(fs.take(i as int)),
                rmax + total_references(fs.take(i as int)),
                cmax + total_calls(fs.take(i as int)),
                imax + total_inherits(fs.take(i as int)),
            );
            assert(fs.take(i + 1).drop_last() =~= fs.take(i as int));
            assert(fs.take(i + 1).last() == update@);
        }
        replace_file(tables, &mut changes, update, &mut metrics);
        i = i + 1;
    }
    assert(fs.take(i as int) =~= fs);
    relink_symbol_ids(tables, &changes);
    metrics
}

} // verus!
