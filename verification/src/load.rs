//! Turns the rows that store an index back into it.
use crate::index::{Index, IndexView};
use crate::rows::{
    CallRowView, DefinitionRow, DefinitionRowView, FileRow, FileRowView, InheritRowView, RefRowView,
    Tables, TablesView,
};
use crate::text;
use crate::types::{
    CallEdge, CallEdgeView, DefId, Definition, DefinitionView, IndexedFile, IndexedFileView,
    InheritEdge, InheritEdgeView, Location, LocationView, Reference, ReferenceView, SymbolKind,
    Visibility, copy_opt,
};
use std::collections::HashMap;
use vstd::prelude::*;

verus! {

broadcast use vstd::std_specs::hash::group_hash_axioms;

/// The last position at which a number stands.
pub open spec fn last_at(ids: Seq<i64>, id: i64) -> Option<usize>
    decreases ids.len(),
{
    if ids.len() == 0 {
        None
    } else if ids.last() == id {
        Some((ids.len() - 1) as usize)
    } else {
        last_at(ids.drop_last(), id)
    }
}

/// A number that stands in a list is found at a position where it stands.
pub proof fn lemma_last_at(ids: Seq<i64>, id: i64)
    requires
        ids.len() <= usize::MAX,
    ensures
        match last_at(ids, id) {
            Some(k) => k < ids.len() && ids[k as int] == id,
            None => !ids.contains(id),
        },
    decreases ids.len(),
{
    if ids.len() > 0 && ids.last() != id {
        lemma_last_at(ids.drop_last(), id);
        if last_at(ids, id) is None && ids.contains(id) {
            let k = choose|k: int| 0 <= k < ids.len() && ids[k] == id;
            assert(ids.drop_last()[k] == id);
        }
    }
}

/// The numbers of file rows.
pub open spec fn file_ids(files: Seq<FileRowView>) -> Seq<i64> {
    files.map_values(|f: FileRowView| f.id)
}

/// The numbers of definition rows.
pub open spec fn definition_ids(definitions: Seq<DefinitionRowView>) -> Seq<i64> {
    definitions.map_values(|d: DefinitionRowView| d.id)
}

/// The path of the file with a number; the empty path where there is none.
pub open spec fn path_of(files: Seq<FileRowView>, id: Option<i64>) -> Seq<char> {
    match id {
        Some(id) => match last_at(file_ids(files), id) {
            Some(k) => files[k as int].path,
            None => Seq::empty(),
        },
        None => Seq::empty(),
    }
}

/// The definition with a row number, by its position.
pub open spec fn linked(definitions: Seq<DefinitionRowView>, id: Option<i64>) -> Option<DefId> {
    match id {
        Some(id) => match last_at(definition_ids(definitions), id) {
            Some(k) => Some(DefId(k)),
            None => None,
        },
        None => None,
    }
}

/// The kind stored under a name; a function where the name is unknown.
pub open spec fn stored_kind(s: Seq<char>) -> SymbolKind {
    match SymbolKind::named(s) {
        Some(k) => k,
        None => SymbolKind::Function,
    }
}

/// The visibility stored under a name; public where the name is unknown.
pub open spec fn stored_visibility(s: Seq<char>) -> Visibility {
    match Visibility::named(s) {
        Some(v) => v,
        None => Visibility::Public,
    }
}

/// The file that a row stores.
pub open spec fn loaded_file(f: FileRowView) -> IndexedFileView {
    IndexedFileView {
        path: f.path,
        language: f.language,
        checksum: f.checksum,
        symbols_checksum: f.symbols_checksum,
    }
}

/// The definition that a row stores.
pub open spec fn loaded_definition(
    files: Seq<FileRowView>,
    d: DefinitionRowView,
) -> DefinitionView {
    DefinitionView {
        id: Some(d.id),
        name: d.name,
        qualified_name: d.qualified_name,
        kind: stored_kind(d.kind),
        location: LocationView {
            file: path_of(files, d.file_id),
            line: d.line as usize,
            column: d.column as usize,
            end_line: d.end_line as usize,
            end_column: d.end_column as usize,
        },
        parent: d.parent_name,
        signature: d.signature,
        visibility: stored_visibility(d.visibility),
        is_definition: d.is_definition != 0,
        extra: d.extra,
    }
}

/// The reference that a row stores; where it ends is not stored.
pub open spec fn loaded_reference(
    files: Seq<FileRowView>,
    definitions: Seq<DefinitionRowView>,
    r: RefRowView,
) -> ReferenceView {
    ReferenceView {
        id: Some(r.id),
        name: r.name,
        kind: stored_kind(r.kind),
        location: LocationView {
            file: path_of(files, r.file_id),
            line: r.line as usize,
            column: r.column as usize,
            end_line: 0,
            end_column: 0,
        },
        def_id: linked(definitions, r.def_id),
        context: r.context,
    }
}

/// The call that a row stores; where it ends is not stored.
pub open spec fn loaded_call(files: Seq<FileRowView>, c: CallRowView) -> CallEdgeView {
    CallEdgeView {
        caller_name: c.caller_name,
        callee_name: c.callee_name,
        location: LocationView {
            file: path_of(files, c.file_id),
            line: c.line as usize,
            column: c.column as usize,
            end_line: 0,
            end_column: 0,
        },
    }
}

/// The inheritance edge that a row stores; of its place only the file is stored.
pub open spec fn loaded_inherit(files: Seq<FileRowView>, e: InheritRowView) -> InheritEdgeView {
    InheritEdgeView {
        derived_name: e.derived_name,
        base_name: e.base_name,
        location: LocationView {
            file: path_of(files, e.file_id),
            line: 0,
            column: 0,
            end_line: 0,
            end_column: 0,
        },
        access: stored_visibility(e.access),
        is_virtual: e.is_virtual != 0,
    }
}

/// The index that tables store.
pub open spec fn loaded(t: TablesView) -> IndexView {
    IndexView {
        files: t.files.map_values(|f: FileRowView| loaded_file(f)),
        definitions: t.definitions.map_values(
            |d: DefinitionRowView| loaded_definition(t.files, d),
        ),
        references: t.refs.map_values(
            |r: RefRowView| loaded_reference(t.files, t.definitions, r),
        ),
        calls: t.calls.map_values(|c: CallRowView| loaded_call(t.files, c)),
        inherits: t.inherits.map_values(|e: InheritRowView| loaded_inherit(t.files, e)),
    }
}

/// Whether a map gives, for every number, the last position at which it stands.
spec fn finds(m: HashMap<i64, usize>, ids: Seq<i64>) -> bool {
    forall|id: i64|
        match last_at(ids, id) {
            Some(k) => #[trigger] m@.contains_key(id) && m@[id] == k,
            None => !m@.contains_key(id),
        }
}

/// The positions of files by their numbers.
fn find_files(files: &Vec<FileRow>) -> (r: HashMap<i64, usize>)
    ensures
        finds(r, file_ids(text::views(files@))),
{
    let ghost ids = file_ids(text::views(files@));
    let mut r: HashMap<i64, usize> = HashMap::new();
    let mut i: usize = 0;
    while i < files.len()
        invariant
            ids == file_ids(text::views(files@)),
            i <= files@.len(),
            finds(r, ids.take(i as int)),
        decreases files@.len() - i,
    {
        r.insert(files[i].id, i);
        proof {
            assert(ids.take(i + 1).drop_last() =~= ids.take(i as int));
            assert(ids.take(i + 1).last() == files@[i as int].id);
        }
        i = i + 1;
    }
    assert(ids.take(i as int) =~= ids);
    r
}

/// The positions of definitions by their numbers.
fn find_definitions(definitions: &Vec<DefinitionRow>) -> (r: HashMap<i64, usize>)
    ensures
        finds(r, definition_ids(text::views(definitions@))),
{
    let ghost ids = definition_ids(text::views(definitions@));
    let mut r: HashMap<i64, usize> = HashMap::new();
    let mut i: usize = 0;
    while i < definitions.len()
        invariant
            ids == definition_ids(text::views(definitions@)),
            i <= definitions@.len(),
            finds(r, ids.take(i as int)),
        decreases definitions@.len() - i,
    {
        r.insert(definitions[i].id, i);
        proof {
            assert(ids.take(i + 1).drop_last() =~= ids.take(i as int));
            assert(ids.take(i + 1).last() == definitions@[i as int].id);
        }
        i = i + 1;
    }
    assert(ids.take(i as int) =~= ids);
    r
}

/// The path of the file with a number; the empty path where there is none.
fn resolve_file(files: &Vec<FileRow>, by_id: &HashMap<i64, usize>, id: Option<i64>) -> (r: String)
    requires
        finds(*by_id, file_ids(text::views(files@))),
    ensures
        r@ == path_of(text::views(files@), id),
{
    let ghost ids = file_ids(text::views(files@));
    assert(files.len() == files@.len());
    match id {
        Some(id) => {
            proof {
                lemma_last_at(ids, id);
            }
            match by_id.get(&id) {
                Some(k) => {
                    assert(by_id@.contains_key(id));
                    files[*k].path.clone()
                },
                None => {
                    assert(!by_id@.contains_key(id));
                    let r = String::new();
                    assert(r@ =~= Seq::empty());
                    r
                },
            }
        },
        None => {
            let r = String::new();
            assert(r@ =~= Seq::empty());
            r
        },
    }
}

/// The kind stored under a name; a function where the name is unknown.
fn read_kind(s: &str) -> (r: SymbolKind)
    ensures
        r == stored_kind(s@),
{
    match SymbolKind::from_str(s) {
        Some(k) => k,
        None => SymbolKind::Function,
    }
}

/// The visibility stored under a name; public where the name is unknown.
fn read_visibility(s: &str) -> (r: Visibility)
    ensures
        r == stored_visibility(s@),
{
    match Visibility::from_str(s) {
        Some(v) => v,
        None => Visibility::Public,
    }
}

/// The index that tables store.
pub fn load_rows(tables: &Tables) -> (r: Index)
    ensures
        r@ == loaded(tables@),
{
    let ghost t = tables@;
    let ghost wanted = loaded(t);
    let by_id = find_files(&tables.files);
    let positions = find_definitions(&tables.definitions);

    let mut files: Vec<IndexedFile> = Vec::new();
    let mut i: usize = 0;
    while i < tables.files.len()
        invariant
            t == tables@,
            wanted == loaded(t),
            i <= tables.files@.len(),
            files@.len() == i,
            forall|k: int| 0 <= k < i ==> (#[trigger] files@[k])@ == wanted.files[k],
        decreases tables.files@.len() - i,
    {
        let f = &tables.files[i];
        files.push(
            IndexedFile {
                path: f.path.clone(),
                language: f.language.clone(),
                checksum: copy_opt(&f.checksum),
                symbols_checksum: copy_opt(&f.symbols_checksum),
            },
        );
        i = i + 1;
    }

    let mut definitions: Vec<Definition> = Vec::new();
    i = 0;
    while i < tables.definitions.len()
        invariant
            t == tables@,
            wanted == loaded(t),
            finds(by_id, file_ids(t.files)),
            i <= tables.definitions@.len(),
            definitions@.len() == i,
            forall|k: int| 0 <= k < i ==> (#[trigger] definitions@[k])@ == wanted.definitions[k],
        decreases tables.definitions@.len() - i,
    {
        let d = &tables.definitions[i];
        definitions.push(
            Definition {
                id: Some(d.id),
                name: d.name.clone(),
                qualified_name: d.qualified_name.clone(),
                kind: read_kind(d.kind.as_str()),
                location: Location {
                    file: resolve_file(&tables.files, &by_id, d.file_id),
                    line: d.line as usize,
                    column: d.column as usize,
                    end_line: d.end_line as usize,
                    end_column: d.end_column as usize,
                },
                parent: copy_opt(&d.parent_name),
                signature: copy_opt(&d.signature),
                visibility: read_visibility(d.visibility.as_str()),
                is_definition: d.is_definition != 0,
                extra: copy_opt(&d.extra),
            },
        );
        i = i + 1;
    }

    let mut references: Vec<Reference> = Vec::new();
    i = 0;
    while i < tables.refs.len()
        invariant
            t == tables@,
            wanted == loaded(t),
            finds(by_id, file_ids(t.files)),
            finds(positions, definition_ids(t.definitions)),
            i <= tables.refs@.len(),
            references@.len() == i,
            forall|k: int| 0 <= k < i ==> (#[trigger] references@[k])@ == wanted.references[k],
        decreases tables.refs@.len() - i,
    {
        let x = &tables.refs[i];
        let def_id: Option<DefId> = match x.def_id {
            Some(id) => match positions.get(&id) {
                Some(k) => {
                    assert(positions@.contains_key(id));
                    Some(DefId(*k))
                },
                None => {
                    assert(!positions@.contains_key(id));
                    None
                },
            },
            None => None,
        };
        references.push(
            Reference {
                id: Some(x.id),
                name: x.name.clone(),
                kind: read_kind(x.kind.as_str()),
                location: Location {
                    file: resolve_file(&tables.files, &by_id, x.file_id),
                    line: x.line as usize,
                    column: x.column as usize,
                    end_line: 0,
                    end_column: 0,
                },
                def_id,
                context: copy_opt(&x.context),
            },
        );
        i = i + 1;
    }

    let mut calls: Vec<CallEdge> = Vec::new();
    i = 0;
    while i < tables.calls.len()
        invariant
            t == tables@,
            wanted == loaded(t),
            finds(by_id, file_ids(t.files)),
            i <= tables.calls@.len(),
            calls@.len() == i,
            forall|k: int| 0 <= k < i ==> (#[trigger] calls@[k])@ == wanted.calls[k],
        decreases tables.calls@.len() - i,
    {
        let c = &tables.calls[i];
        calls.push(
            CallEdge {
                caller_name: c.caller_name.clone(),
                callee_name: c.callee_name.clone(),
                location: Location {
                    file: resolve_file(&tables.files, &by_id, c.file_id),
                    line: c.line as usize,
                    column: c.column as usize,
                    end_line: 0,
                    end_column: 0,
                },
            },
        );
        i = i + 1;
    }

    let mut inherits: Vec<InheritEdge> = Vec::new();
    i = 0;
    while i < tables.inherits.len()
        invariant
            t == tables@,
            wanted == loaded(t),
            finds(by_id, file_ids(t.files)),
            i <= tables.inherits@.len(),
            inherits@.len() == i,
            forall|k: int| 0 <= k < i ==> (#[trigger] inherits@[k])@ == wanted.inherits[k],
        decreases tables.inherits@.len() - i,
    {
        let e = &tables.inherits[i];
        inherits.push(
            InheritEdge {
                derived_name: e.derived_name.clone(),
                base_name: e.base_name.clone(),
                location: Location {
                    file: resolve_file(&tables.files, &by_id, e.file_id),
                    line: 0,
                    column: 0,
                    end_line: 0,
                    end_column: 0,
                },
                access: read_visibility(e.access.as_str()),
                is_virtual: e.is_virtual != 0,
            },
        );
        i = i + 1;
    }
    proof {
        assert(text::views(files@) =~= wanted.files);
        assert(text::views(definitions@) =~= wanted.definitions);
        assert(text::views(references@) =~= wanted.references);
        assert(text::views(calls@) =~= wanted.calls);
        assert(text::views(inherits@) =~= wanted.inherits);
    }
    Index::new(files, definitions, references, calls, inherits)
}

} // verus!
