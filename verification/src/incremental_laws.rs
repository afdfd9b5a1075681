//! What every update of the tables keeps.
use crate::incremental::{ChangeView, ChecksumUpdateView, FileUpdateView, UpdateView};
use crate::incremental;
use crate::index::IndexView;
use crate::index;
use crate::rows::{
    CallRowView, DefinitionRowView, FileRowView, InheritRowView, RefRowView, TablesView,
};
use crate::save;
use crate::text;
use crate::types::{DefId, FileSymbolsView};
use vstd::prelude::*;

verus! {

/// Whether no two values have the same key.
pub open spec fn distinct_keys<T, K>(s: Seq<T>, key: spec_fn(T) -> K) -> bool {
    forall|i: int, j: int| 0 <= i < j < s.len() ==> key(#[trigger] s[i]) != key(#[trigger] s[j])
}

/// The number of a file row.
pub open spec fn file_id() -> spec_fn(FileRowView) -> i64 {
    |f: FileRowView| f.id
}

/// The path of a file row.
pub open spec fn file_path() -> spec_fn(FileRowView) -> Seq<char> {
    |f: FileRowView| f.path
}

/// The number of a definition row.
pub open spec fn definition_id() -> spec_fn(DefinitionRowView) -> i64 {
    |d: DefinitionRowView| d.id
}

/// Whether file rows have numbers of their own, above zero, and paths of their own.
pub open spec fn files_apart(files: Seq<FileRowView>) -> bool {
    &&& distinct_keys(files, file_id())
    &&& distinct_keys(files, file_path())
    &&& forall|i: int| 0 <= i < files.len() ==> (#[trigger] files[i]).id > 0
}

/// Whether definition rows have numbers of their own, above zero.
pub open spec fn definitions_apart(definitions: Seq<DefinitionRowView>) -> bool {
    &&& distinct_keys(definitions, definition_id())
    &&& forall|i: int| 0 <= i < definitions.len() ==> (#[trigger] definitions[i]).id > 0
}

/// Whether the number of a file, where there is one, is that of a file row.
pub open spec fn in_files(files: Seq<FileRowView>, id: Option<i64>) -> bool {
    id matches Some(i) ==> incremental::file_ids(files).contains(i)
}

/// Whether the number of a definition, where there is one, is that of a definition row or of one
/// that was taken out.
pub open spec fn in_definitions(
    definitions: Seq<DefinitionRowView>,
    gone: Set<i64>,
    id: Option<i64>,
) -> bool {
    id matches Some(i) ==> incremental::definition_ids(definitions).contains(i) || gone.contains(i)
}

/// Whether every row refers to rows that are there, but for definitions that were taken out.
pub open spec fn refers_well(t: TablesView, gone: Set<i64>) -> bool {
    &&& forall|x: DefinitionRowView| #[trigger]
        t.definitions.contains(x) ==> in_files(t.files, x.file_id)
    &&& forall|x: RefRowView| #[trigger]
        t.refs.contains(x) ==> in_files(t.files, x.file_id) && in_definitions(
            t.definitions,
            gone,
            x.def_id,
        )
    &&& forall|x: CallRowView| #[trigger]
        t.calls.contains(x) ==> in_files(t.files, x.file_id) && in_definitions(
            t.definitions,
            gone,
            x.caller_id,
        ) && in_definitions(t.definitions, gone, x.callee_id)
    &&& forall|x: InheritRowView| #[trigger]
        t.inherits.contains(x) ==> in_files(t.files, x.file_id) && in_definitions(
            t.definitions,
            gone,
            x.derived_id,
        ) && in_definitions(t.definitions, gone, x.base_id)
}

/// Whether tables are sound: rows are told apart by their numbers, and whatever a row refers to
/// is there.
pub open spec fn sound(t: TablesView) -> bool {
    files_apart(t.files) && definitions_apart(t.definitions) && refers_well(t, Set::empty())
}

/// What holds between the steps of an update.
pub open spec fn underway(u: UpdateView) -> bool {
    &&& files_apart(u.tables.files)
    &&& definitions_apart(u.tables.definitions)
    &&& refers_well(u.tables, u.changes.gone)
}

/// What a filter keeps.
pub proof fn lemma_filter<T>(s: Seq<T>, p: spec_fn(T) -> bool)
    ensures
        forall|x: T| #[trigger] s.filter(p).contains(x) <==> s.contains(x) && p(x),
        s.filter(p).len() <= s.len(),
    decreases s.len(),
{
    reveal(Seq::filter);
    if s.len() > 0 {
        let short = s.drop_last();
        lemma_filter(short, p);
        assert(s =~= short.push(s.last()));
        text::lemma_push_contains(short, s.last());
        text::lemma_push_contains(short.filter(p), s.last());
    }
}

/// A filter keeps keys apart.
pub proof fn lemma_filter_keys<T, K>(s: Seq<T>, p: spec_fn(T) -> bool, key: spec_fn(T) -> K)
    requires
        distinct_keys(s, key),
    ensures
        distinct_keys(s.filter(p), key),
    decreases s.len(),
{
    reveal(Seq::filter);
    if s.len() > 0 {
        let short = s.drop_last();
        lemma_filter_keys(short, p, key);
        lemma_filter(short, p);
        let kept = short.filter(p);
        assert forall|i: int| 0 <= i < kept.len() implies key(#[trigger] kept[i]) != key(
            s.last(),
        ) by {
            assert(kept.contains(kept[i]));
            let j = choose|j: int| 0 <= j < short.len() && short[j] == kept[i];
            assert(s[j] == kept[i]);
        }
    }
}

/// The numbers of rows are those of the rows.
proof fn lemma_file_ids(files: Seq<FileRowView>)
    ensures
        forall|x: FileRowView| #[trigger]
            files.contains(x) ==> incremental::file_ids(files).contains(x.id),
        forall|id: i64| #[trigger]
            incremental::file_ids(files).contains(id) ==> exists|x: FileRowView|
                #![auto]
                files.contains(x) && x.id == id,
{
    assert forall|x: FileRowView| #[trigger] files.contains(x) implies incremental::file_ids(
        files,
    ).contains(x.id) by {
        let i = choose|i: int| 0 <= i < files.len() && files[i] == x;
        assert(incremental::file_ids(files)[i] == x.id);
    }
    assert forall|id: i64| #[trigger] incremental::file_ids(files).contains(id) implies exists|
        x: FileRowView,
    |
        #![auto]
        files.contains(x) && x.id == id by {
        let i = choose|i: int|
            0 <= i < incremental::file_ids(files).len() && incremental::file_ids(files)[i] == id;
        assert(files.contains(files[i]));
    }
}

/// The numbers of rows are those of the rows.
proof fn lemma_definition_ids(definitions: Seq<DefinitionRowView>)
    ensures
        forall|x: DefinitionRowView| #[trigger]
            definitions.contains(x) ==> incremental::definition_ids(definitions).contains(x.id),
        forall|id: i64| #[trigger]
            incremental::definition_ids(definitions).contains(id) ==> exists|
                x: DefinitionRowView,
            |
                #![auto]
                definitions.contains(x) && x.id == id,
{
    let ids = incremental::definition_ids(definitions);
    assert forall|x: DefinitionRowView| #[trigger] definitions.contains(x) implies ids.contains(
        x.id,
    ) by {
        let i = choose|i: int| 0 <= i < definitions.len() && definitions[i] == x;
        assert(ids[i] == x.id);
    }
    assert forall|id: i64| #[trigger] ids.contains(id) implies exists|x: DefinitionRowView|
        #![auto]
        definitions.contains(x) && x.id == id by {
        let i = choose|i: int| 0 <= i < ids.len() && ids[i] == id;
        assert(definitions.contains(definitions[i]));
    }
}

/// No number is above the largest one.
proof fn lemma_top_bound(ids: Seq<i64>)
    ensures
        forall|i: int| 0 <= i < ids.len() ==> (#[trigger] ids[i]) <= incremental::top(ids),
    decreases ids.len(),
{
    if ids.len() > 0 {
        lemma_top_bound(ids.drop_last());
        assert forall|i: int| 0 <= i < ids.len() implies (#[trigger] ids[i]) <= incremental::top(
            ids,
        ) by {
            if i < ids.len() - 1 {
                assert(ids.drop_last()[i] == ids[i]);
            }
        }
    }
}

/// The largest of numbers above zero is one of them.
proof fn lemma_top_member(ids: Seq<i64>)
    requires
        ids.len() > 0,
        forall|i: int| 0 <= i < ids.len() ==> (#[trigger] ids[i]) > 0,
    ensures
        ids.contains(incremental::top(ids) as i64),
    decreases ids.len(),
{
    let short = ids.drop_last();
    if ids.last() > incremental::top(short) {
        assert(ids[ids.len() - 1] == ids.last());
    } else {
        assert(ids[ids.len() - 1] > 0);
        if short.len() > 0 {
            assert forall|i: int| 0 <= i < short.len() implies (#[trigger] short[i]) > 0 by {
                assert(short[i] == ids[i]);
            }
            lemma_top_member(short);
            let i = choose|i: int|
                0 <= i < short.len() && short[i] == incremental::top(short) as i64;
            assert(ids[i] == short[i]);
        }
    }
}

/// An end is linked to a definition that is there.
proof fn lemma_link_is_there(definitions: Seq<DefinitionRowView>, name: Seq<char>)
    requires
        definitions.len() <= usize::MAX,
        definitions_apart(definitions),
    ensures
        incremental::row_link(definitions, name) matches Some(id)
            ==> incremental::definition_ids(definitions).contains(id),
{
    let exact = index::spots(incremental::row_qualified_names(definitions), name);
    let simple = index::spots(incremental::row_names(definitions), name);
    index::lemma_spots(incremental::row_qualified_names(definitions), name);
    index::lemma_spots(incremental::row_names(definitions), name);
    let ids = incremental::definition_ids(definitions);
    if exact.len() > 0 {
        let picked = incremental::definition_ids(index::picked(definitions, exact));
        assert forall|i: int| 0 <= i < picked.len() implies (#[trigger] picked[i]) > 0 by {
            assert(picked[i] == definitions[exact[i] as int].id);
        }
        lemma_top_member(picked);
        let i = choose|i: int|
            0 <= i < picked.len() && picked[i] == incremental::top(picked) as i64;
        assert(ids[exact[i] as int] == picked[i]);
    } else if simple.len() == 1 {
        assert(ids[simple[0] as int] == definitions[simple[0] as int].id);
    }
}

/// A name stands for a definition that is there.
proof fn lemma_resolution_is_there(definitions: Seq<DefinitionRowView>, name: Seq<char>)
    requires
        definitions.len() <= usize::MAX,
    ensures
        incremental::row_resolution(definitions, name) matches Some(id)
            ==> incremental::definition_ids(definitions).contains(id),
{
    let exact = index::spots(incremental::row_qualified_names(definitions), name);
    let simple = index::spots(incremental::row_names(definitions), name);
    index::lemma_spots(incremental::row_qualified_names(definitions), name);
    index::lemma_spots(incremental::row_names(definitions), name);
    let ids = incremental::definition_ids(definitions);
    if exact.len() == 1 {
        assert(ids[exact[0] as int] == definitions[exact[0] as int].id);
    } else if simple.len() == 1 {
        assert(ids[simple[0] as int] == definitions[simple[0] as int].id);
    }
}

/// Taking out the symbols of a file leaves rows that refer well, but for its definitions.
proof fn lemma_cleared(t: TablesView, gone: Set<i64>, id: i64)
    requires
        definitions_apart(t.definitions),
        refers_well(t, gone),
    ensures
        definitions_apart(incremental::cleared(t, id).definitions),
        refers_well(
            incremental::cleared(t, id),
            gone.union(incremental::ids_of_file(t.definitions, id)),
        ),
{
    let c = incremental::cleared(t, id);
    let more = gone.union(incremental::ids_of_file(t.definitions, id));
    let keep = incremental::definition_elsewhere(id);
    lemma_filter(t.definitions, keep);
    lemma_filter_keys(t.definitions, keep, definition_id());
    lemma_filter(t.refs, incremental::ref_elsewhere(id));
    lemma_filter(t.calls, incremental::call_elsewhere(id));
    lemma_filter(t.inherits, incremental::inherit_elsewhere(t.definitions, id));
    assert forall|i: int| 0 <= i < c.definitions.len() implies (#[trigger] c.definitions[i]).id
        > 0 by {
        assert(c.definitions.contains(c.definitions[i]));
        let j = choose|j: int| 0 <= j < t.definitions.len() && t.definitions[j] == c.definitions[i];
        assert(t.definitions[j].id > 0);
    }
    assert forall|x: Option<i64>| #[trigger] in_definitions(
        t.definitions,
        gone,
        x,
    ) implies in_definitions(c.definitions, more, x) by {
        if let Some(d) = x {
            if incremental::definition_ids(t.definitions).contains(d) {
                let ids = incremental::definition_ids(t.definitions);
                let k = choose|k: int| 0 <= k < ids.len() && ids[k] == d;
                let row = t.definitions[k];
                assert(t.definitions.contains(row));
                if row.file_id == Some(id) {
                    assert(incremental::defines_id(t.definitions, id, d));
                } else {
                    assert(c.definitions.contains(row));
                    lemma_definition_ids(c.definitions);
                }
            }
        }
    }
}

/// Taking out a file keeps what holds between the steps of an update.
pub proof fn lemma_removed(u: UpdateView, path: Seq<char>)
    requires
        underway(u),
        u.tables.files.len() <= usize::MAX,
    ensures
        underway(incremental::removed(u, path)),
{
    let t = u.tables;
    if let Some(k) = incremental::row_of(t.files, path) {
        let id = t.files[k].id;
        let after = incremental::removed(u, path);
        let c = incremental::cleared(t, id);
        let keep = incremental::file_elsewhere(id);
        lemma_cleared(t, u.changes.gone, id);
        lemma_filter(t.files, keep);
        lemma_filter_keys(t.files, keep, file_id());
        lemma_filter_keys(t.files, keep, file_path());
        lemma_filter(t.definitions, incremental::definition_elsewhere(id));
        lemma_filter(t.refs, incremental::ref_elsewhere(id));
        lemma_filter(t.calls, incremental::call_elsewhere(id));
        lemma_filter(t.inherits, incremental::inherit_elsewhere(t.definitions, id));
        let files = after.tables.files;
        assert forall|i: int| 0 <= i < files.len() implies (#[trigger] files[i]).id > 0 by {
            assert(files.contains(files[i]));
            let j = choose|j: int| 0 <= j < t.files.len() && t.files[j] == files[i];
            assert(t.files[j].id > 0);
        }
        assert forall|x: Option<i64>|
            x != Some(id) && #[trigger] in_files(t.files, x) implies in_files(files, x) by {
            if let Some(i) = x {
                lemma_file_ids(t.files);
                lemma_file_ids(files);
                let row = choose|row: FileRowView| #![auto] t.files.contains(row) && row.id == i;
                assert(files.contains(row));
            }
        }
        let gone = after.changes.gone;
        assert forall|x: DefinitionRowView| #[trigger]
            after.tables.definitions.contains(x) implies in_files(files, x.file_id) by {
            assert(in_files(t.files, x.file_id));
        }
        assert forall|x: RefRowView| #[trigger] after.tables.refs.contains(x) implies in_files(
            files,
            x.file_id,
        ) && in_definitions(c.definitions, gone, x.def_id) by {
            assert(c.refs.contains(x));
            assert(in_files(t.files, x.file_id));
        }
        assert forall|x: CallRowView| #[trigger] after.tables.calls.contains(x) implies in_files(
            files,
            x.file_id,
        ) && in_definitions(c.definitions, gone, x.caller_id) && in_definitions(
            c.definitions,
            gone,
            x.callee_id,
        ) by {
            assert(c.calls.contains(x));
            assert(in_files(t.files, x.file_id));
        }
        assert forall|x: InheritRowView| #[trigger]
            after.tables.inherits.contains(x) implies in_files(files, x.file_id) && in_definitions(
            c.definitions,
            gone,
            x.derived_id,
        ) && in_definitions(c.definitions, gone, x.base_id) by {
            assert(c.inherits.contains(x));
            assert(in_files(t.files, x.file_id));
        }
    }
}

/// What two sequences contain, one after the other.
proof fn lemma_concat_contains<T>(a: Seq<T>, b: Seq<T>)
    ensures
        forall|x: T| #[trigger] (a + b).contains(x) <==> a.contains(x) || b.contains(x),
{
    assert forall|x: T| #[trigger] (a + b).contains(x) <==> a.contains(x) || b.contains(x) by {
        if a.contains(x) {
            let i = choose|i: int| 0 <= i < a.len() && a[i] == x;
            assert((a + b)[i] == x);
        }
        if b.contains(x) {
            let i = choose|i: int| 0 <= i < b.len() && b[i] == x;
            assert((a + b)[a.len() + i] == x);
        }
        if (a + b).contains(x) {
            let i = choose|i: int| 0 <= i < (a + b).len() && (a + b)[i] == x;
            if i < a.len() {
                assert(a[i] == x);
            } else {
                assert(b[i - a.len()] == x);
            }
        }
    }
}

/// Writing the row of a file keeps files apart, and every file that was there.
pub proof fn lemma_upserted(files: Seq<FileRowView>, f: FileUpdateView)
    requires
        files_apart(files),
        files.len() <= usize::MAX,
        incremental::top(incremental::file_ids(files)) < i64::MAX,
    ensures
        ({
            let after = incremental::upserted(
                files,
                f.symbols.file,
                f.symbols.language,
                f.checksum,
                f.symbols_checksum,
            );
            &&& files_apart(after)
            &&& forall|id: Option<i64>| #[trigger] in_files(files, id) ==> in_files(after, id)
            &&& in_files(after, Some(incremental::stored_number(files, f.symbols.file)))
            &&& incremental::row_of(files, f.symbols.file) is None ==> !incremental::file_ids(
                files,
            ).contains(incremental::stored_number(files, f.symbols.file))
        }),
{
    let path = f.symbols.file;
    let after = incremental::upserted(
        files,
        path,
        f.symbols.language,
        f.checksum,
        f.symbols_checksum,
    );
    let number = incremental::stored_number(files, path);
    let ids = incremental::file_ids(files);
    let keys = incremental::row_paths(files);
    let at = index::spots(keys, path);
    index::lemma_spots(keys, path);
    incremental::lemma_top_nonnegative(ids);
    lemma_top_bound(ids);
    if let Some(k) = incremental::row_of(files, path) {
        assert(keys[at[0] as int] == path);
        assert(incremental::file_ids(after) =~= ids);
        assert(ids[k] == number);
        assert forall|i: int, j: int| 0 <= i < j < after.len() implies file_path()(
            #[trigger] after[i],
        ) != file_path()(#[trigger] after[j]) by {
            assert(file_path()(files[i]) != file_path()(files[j]));
        }
        assert forall|i: int, j: int| 0 <= i < j < after.len() implies file_id()(
            #[trigger] after[i],
        ) != file_id()(#[trigger] after[j]) by {
            assert(file_id()(files[i]) != file_id()(files[j]));
        }
    } else {
        let row = after.last();
        assert(after =~= files.push(row));
        assert(incremental::file_ids(after) =~= ids.push(number));
        text::lemma_push_contains(ids, number);
        assert forall|i: int| 0 <= i < files.len() implies (#[trigger] files[i]).path != path
            && files[i].id != number by {
            if files[i].path == path {
                assert(keys[i] == path);
                assert(at.contains(i as usize));
            }
            assert(ids[i] == files[i].id);
        }
    }
}

/// Replacing a file keeps what holds between the steps of an update.
#[verifier::spinoff_prover]
proof fn lemma_replaced(u: UpdateView, f: FileUpdateView)
    requires
        underway(u),
        u.tables.files.len() <= usize::MAX,
        incremental::replace_fits(u.tables, f.symbols),
    ensures
        underway(incremental::replaced(u, f)),
{
    let t = u.tables;
    let path = f.symbols.file;
    let number = incremental::stored_number(t.files, path);
    let stored = incremental::row_of(t.files, path) is Some;
    let emptied = if stored {
        incremental::cleared(t, number)
    } else {
        t
    };
    let files = incremental::upserted(
        t.files,
        path,
        f.symbols.language,
        f.checksum,
        f.symbols_checksum,
    );
    let after = incremental::replaced(u, f);
    let gone = after.changes.gone;
    lemma_upserted(t.files, f);
    lemma_cleared(t, u.changes.gone, number);
    incremental::lemma_top_cleared(t, number);
    lemma_filter(t.refs, incremental::ref_elsewhere(number));
    lemma_filter(t.calls, incremental::call_elsewhere(number));
    lemma_filter(t.inherits, incremental::inherit_elsewhere(t.definitions, number));
    assert(u.changes.gone.union(Set::empty()) =~= u.changes.gone);
    assert(refers_well(emptied, gone));
    lemma_emptied(u, f, emptied);
    lemma_new_definitions(emptied, files, number, f.symbols, gone);
    lemma_new_rows(emptied, after, files, number, f.symbols);
}

/// After the symbols of a file were taken out, no row of it is left.
pub proof fn lemma_emptied(u: UpdateView, f: FileUpdateView, emptied: TablesView)
    requires
        underway(u),
        u.tables.files.len() <= usize::MAX,
        incremental::top(incremental::file_ids(u.tables.files)) < i64::MAX,
        emptied == if incremental::row_of(u.tables.files, f.symbols.file) is Some {
            incremental::cleared(
                u.tables,
                incremental::stored_number(u.tables.files, f.symbols.file),
            )
        } else {
            u.tables
        },
    ensures
        ({
            let number = Some(incremental::stored_number(u.tables.files, f.symbols.file));
            &&& forall|x: RefRowView| #[trigger] emptied.refs.contains(x) ==> x.file_id != number
            &&& forall|x: CallRowView| #[trigger] emptied.calls.contains(x) ==> x.file_id != number
            &&& forall|x: InheritRowView| #[trigger]
                emptied.inherits.contains(x) ==> x.file_id != number
        }),
{
    let t = u.tables;
    let number = incremental::stored_number(t.files, f.symbols.file);
    lemma_upserted(t.files, f);
    lemma_filter(t.refs, incremental::ref_elsewhere(number));
    lemma_filter(t.calls, incremental::call_elsewhere(number));
    lemma_filter(t.inherits, incremental::inherit_elsewhere(t.definitions, number));
    if incremental::row_of(t.files, f.symbols.file) is None {
        assert(!in_files(t.files, Some(number)));
    }
}

/// Definitions that are numbered behind the others keep definitions apart.
proof fn lemma_new_definitions(
    emptied: TablesView,
    files: Seq<FileRowView>,
    number: i64,
    f: FileSymbolsView,
    gone: Set<i64>,
)
    requires
        definitions_apart(emptied.definitions),
        incremental::top(incremental::definition_ids(emptied.definitions)) + f.definitions.len()
            < i64::MAX,
    ensures
        ({
            let after = incremental::inserted(TablesView { files, ..emptied }, number, f);
            &&& definitions_apart(after.definitions)
            &&& forall|x: DefinitionRowView| #[trigger]
                after.definitions.contains(x) ==> emptied.definitions.contains(x) || x.file_id
                    == Some(number)
            &&& forall|id: Option<i64>| #[trigger]
                in_definitions(emptied.definitions, gone, id) ==> in_definitions(
                    after.definitions,
                    gone,
                    id,
                )
        }),
{
    let listed = TablesView { files, ..emptied };
    let after = incremental::inserted(listed, number, f);
    let base = incremental::top(incremental::definition_ids(emptied.definitions));
    let ids = incremental::definition_ids(emptied.definitions);
    let old_len = emptied.definitions.len() as int;
    incremental::lemma_top_nonnegative(ids);
    lemma_top_bound(ids);
    let more = Seq::new(
        f.definitions.len(),
        |k: int|
            save::definition_row((base + k + 1) as i64, Some(number), f.definitions[k]),
    );
    assert(after.definitions =~= emptied.definitions + more);
    lemma_concat_contains(emptied.definitions, more);
    assert forall|i: int| 0 <= i < old_len implies (#[trigger] after.definitions[i]).id <= base by {
        assert(ids[i] == emptied.definitions[i].id);
    }
    assert forall|i: int| old_len <= i < after.definitions.len() implies (
    #[trigger] after.definitions[i]).id == base + (i - old_len) + 1 by {
        assert(after.definitions[i] == more[i - old_len]);
    }
    assert forall|i: int, j: int| 0 <= i < j < after.definitions.len() implies definition_id()(
        #[trigger] after.definitions[i],
    ) != definition_id()(#[trigger] after.definitions[j]) by {
        if j < old_len {
            assert(definition_id()(emptied.definitions[i]) != definition_id()(
                emptied.definitions[j],
            ));
        }
    }
    assert forall|i: int| 0 <= i < after.definitions.len() implies (
    #[trigger] after.definitions[i]).id > 0 by {
        if i < old_len {
            assert(emptied.definitions[i].id > 0);
        }
    }
    assert forall|id: Option<i64>| #[trigger] in_definitions(
        emptied.definitions,
        gone,
        id,
    ) implies in_definitions(after.definitions, gone, id) by {
        if let Some(d) = id {
            if ids.contains(d) {
                let k = choose|k: int| 0 <= k < ids.len() && ids[k] == d;
                assert(incremental::definition_ids(after.definitions)[k] == d);
            }
        }
    }
    assert forall|x: DefinitionRowView| #[trigger] more.contains(x) implies x.file_id == Some(
        number,
    ) by {
        let k = choose|k: int| 0 <= k < more.len() && more[k] == x;
    }
}

/// The rows of a file refer to nothing but the file.
proof fn lemma_new_rows(
    emptied: TablesView,
    after: UpdateView,
    files: Seq<FileRowView>,
    number: i64,
    f: FileSymbolsView,
)
    requires
        after.tables == incremental::inserted(TablesView { files, ..emptied }, number, f),
        refers_well(emptied, after.changes.gone),
        forall|id: Option<i64>| #[trigger]
            in_files(emptied.files, id) ==> in_files(files, id),
        in_files(files, Some(number)),
        forall|x: DefinitionRowView| #[trigger]
            after.tables.definitions.contains(x) ==> emptied.definitions.contains(x) || x.file_id
                == Some(number),
        forall|id: Option<i64>| #[trigger]
            in_definitions(emptied.definitions, after.changes.gone, id) ==> in_definitions(
                after.tables.definitions,
                after.changes.gone,
                id,
            ),
    ensures
        refers_well(after.tables, after.changes.gone),
{
    let t = after.tables;
    let gone = after.changes.gone;
    let listed = TablesView { files, ..emptied };
    let refs = Seq::new(
        f.references.len(),
        |k: int|
            save::ref_row(
                (incremental::top(incremental::ref_ids(listed.refs)) + k + 1) as i64,
                Some(number),
                None,
                f.references[k],
            ),
    );
    let calls = Seq::new(
        f.calls.len(),
        |k: int|
            save::call_row(
                (incremental::top(incremental::call_ids(listed.calls)) + k + 1) as i64,
                Some(number),
                None,
                None,
                f.calls[k],
            ),
    );
    let inherits = Seq::new(
        f.inherits.len(),
        |k: int|
            save::inherit_row(
                (incremental::top(incremental::inherit_ids(listed.inherits)) + k + 1) as i64,
                Some(number),
                None,
                None,
                f.inherits[k],
            ),
    );
    assert(t.refs =~= emptied.refs + refs);
    assert(t.calls =~= emptied.calls + calls);
    assert(t.inherits =~= emptied.inherits + inherits);
    lemma_concat_contains(emptied.refs, refs);
    lemma_concat_contains(emptied.calls, calls);
    lemma_concat_contains(emptied.inherits, inherits);
    assert forall|x: RefRowView| #[trigger] t.refs.contains(x) implies in_files(
        files,
        x.file_id,
    ) && in_definitions(t.definitions, gone, x.def_id) by {
        if !emptied.refs.contains(x) {
            let k = choose|k: int| 0 <= k < refs.len() && refs[k] == x;
        }
    }
    assert forall|x: CallRowView| #[trigger] t.calls.contains(x) implies in_files(
        files,
        x.file_id,
    ) && in_definitions(t.definitions, gone, x.caller_id) && in_definitions(
        t.definitions,
        gone,
        x.callee_id,
    ) by {
        if !emptied.calls.contains(x) {
            let k = choose|k: int| 0 <= k < calls.len() && calls[k] == x;
        }
    }
    assert forall|x: InheritRowView| #[trigger] t.inherits.contains(x) implies in_files(
        files,
        x.file_id,
    ) && in_definitions(t.definitions, gone, x.derived_id) && in_definitions(
        t.definitions,
        gone,
        x.base_id,
    ) by {
        if !emptied.inherits.contains(x) {
            let k = choose|k: int| 0 <= k < inherits.len() && inherits[k] == x;
        }
    }
    assert forall|x: DefinitionRowView| #[trigger] t.definitions.contains(x) implies in_files(
        files,
        x.file_id,
    ) by {
        if emptied.definitions.contains(x) {
            assert(in_files(emptied.files, x.file_id));
        }
    }
}

/// Writing checksums leaves numbers and paths as they are.
pub proof fn lemma_checksums(files: Seq<FileRowView>, us: Seq<ChecksumUpdateView>)
    requires
        files.len() <= usize::MAX,
    ensures
        incremental::all_checksums(files, us).len() == files.len(),
        incremental::file_ids(incremental::all_checksums(files, us)) == incremental::file_ids(
            files,
        ),
        incremental::row_paths(incremental::all_checksums(files, us)) == incremental::row_paths(
            files,
        ),
    decreases us.len(),
{
    if us.len() > 0 {
        lemma_checksums(files, us.drop_last());
        let before = incremental::all_checksums(files, us.drop_last());
        let after = incremental::all_checksums(files, us);
        index::lemma_spots(incremental::row_paths(before), us.last().path);
        if let Some(k) = incremental::row_of(before, us.last().path) {
            assert(k == index::spots(incremental::row_paths(before), us.last().path)[0]);
        }
        assert(incremental::file_ids(after) =~= incremental::file_ids(before));
        assert(incremental::row_paths(after) =~= incremental::row_paths(before));
    }
}

/// File rows with the numbers and paths of others that are apart are apart.
pub proof fn lemma_same_apart(a: Seq<FileRowView>, b: Seq<FileRowView>)
    requires
        files_apart(a),
        incremental::file_ids(a) == incremental::file_ids(b),
        incremental::row_paths(a) == incremental::row_paths(b),
    ensures
        files_apart(b),
{
    let ids = incremental::file_ids(a);
    let paths = incremental::row_paths(a);
    assert(a.len() == ids.len() && b.len() == incremental::file_ids(b).len());
    assert forall|i: int| 0 <= i < b.len() implies (#[trigger] b[i]).id == a[i].id && b[i].path
        == a[i].path by {
        assert(incremental::file_ids(b)[i] == ids[i]);
        assert(incremental::row_paths(b)[i] == paths[i]);
    }
    assert forall|i: int, j: int| 0 <= i < j < b.len() implies file_id()(#[trigger] b[i])
        != file_id()(#[trigger] b[j]) by {
        assert(file_id()(a[i]) != file_id()(a[j]));
    }
    assert forall|i: int, j: int| 0 <= i < j < b.len() implies file_path()(#[trigger] b[i])
        != file_path()(#[trigger] b[j]) by {
        assert(file_path()(a[i]) != file_path()(a[j]));
    }
}

/// Taking out files keeps what holds between the steps of an update.
pub proof fn lemma_all_removed(u: UpdateView, paths: Seq<Seq<char>>)
    requires
        underway(u),
        u.tables.files.len() <= usize::MAX,
    ensures
        ({
            let r = incremental::all_removed(u, paths);
            let t = u.tables;
            &&& underway(r)
            &&& r.tables.files.len() <= t.files.len()
            &&& r.tables.definitions.len() <= t.definitions.len()
            &&& incremental::within(
                r.tables,
                incremental::top(incremental::file_ids(t.files)),
                incremental::top(incremental::definition_ids(t.definitions)),
                incremental::top(incremental::ref_ids(t.refs)),
                incremental::top(incremental::call_ids(t.calls)),
                incremental::top(incremental::inherit_ids(t.inherits)),
            )
        }),
    decreases paths.len(),
{
    if paths.len() > 0 {
        lemma_all_removed(u, paths.drop_last());
        let before = incremental::all_removed(u, paths.drop_last());
        lemma_removed(before, paths.last());
        if let Some(k) = incremental::row_of(before.tables.files, paths.last()) {
            let id = before.tables.files[k].id;
            incremental::lemma_top_cleared(before.tables, id);
            lemma_filter(before.tables.files, incremental::file_elsewhere(id));
            lemma_filter(before.tables.definitions, incremental::definition_elsewhere(id));
        }
    }
}

/// Replacing files keeps what holds between the steps of an update.
pub proof fn lemma_all_replaced(
    u: UpdateView,
    fs: Seq<FileUpdateView>,
    n: int,
    f: int,
    d: int,
    r: int,
    c: int,
    i: int,
)
    requires
        underway(u),
        0 <= n <= fs.len(),
        u.tables.files.len() + fs.len() <= usize::MAX,
        u.tables.definitions.len() + incremental::total_definitions(fs) <= usize::MAX,
        incremental::within(u.tables, f, d, r, c, i),
        f + fs.len() < i64::MAX,
        d + incremental::total_definitions(fs) < i64::MAX,
        r + incremental::total_references(fs) < i64::MAX,
        c + incremental::total_calls(fs) < i64::MAX,
        i + incremental::total_inherits(fs) < i64::MAX,
    ensures
        ({
            let v = incremental::all_replaced(u, fs.take(n));
            &&& underway(v)
            &&& v.tables.files.len() <= u.tables.files.len() + n
            &&& v.tables.definitions.len() <= u.tables.definitions.len()
                + incremental::total_definitions(fs.take(n))
            &&& incremental::within(
                v.tables,
                f + n,
                d + incremental::total_definitions(fs.take(n)),
                r + incremental::total_references(fs.take(n)),
                c + incremental::total_calls(fs.take(n)),
                i + incremental::total_inherits(fs.take(n)),
            )
        }),
    decreases n,
{
    if n == 0 {
        assert(fs.take(0) =~= Seq::empty());
    } else {
        lemma_all_replaced(u, fs, n - 1, f, d, r, c, i);
        let before = incremental::all_replaced(u, fs.take(n - 1));
        let x = fs[n - 1];
        assert(fs.take(n).drop_last() =~= fs.take(n - 1));
        assert(fs.take(n).last() == x);
        incremental::lemma_totals(fs, n - 1);
        lemma_replaced(before, x);
        incremental::lemma_within_replaced(
            before,
            x,
            f + n - 1,
            d + incremental::total_definitions(fs.take(n - 1)),
            r + incremental::total_references(fs.take(n - 1)),
            c + incremental::total_calls(fs.take(n - 1)),
            i + incremental::total_inherits(fs.take(n - 1)),
        );
        let number = incremental::stored_number(before.tables.files, x.symbols.file);
        lemma_filter(before.tables.definitions, incremental::definition_elsewhere(number));
        lemma_row_of(before.tables.files, x.symbols.file);
    }
}

/// Whether an update is one that a machine can hold.
pub open spec fn holdable(t: TablesView, updates: Seq<FileUpdateView>) -> bool {
    &&& t.files.len() + updates.len() <= usize::MAX
    &&& t.definitions.len() + incremental::total_definitions(updates) <= usize::MAX
}

/// What holds before rows are linked anew.
pub proof fn lemma_changed(
    t: TablesView,
    updates: Seq<FileUpdateView>,
    checksums: Seq<ChecksumUpdateView>,
    gone: Seq<Seq<char>>,
)
    requires
        sound(t),
        incremental::update_fits(t, updates),
        holdable(t, updates),
    ensures
        underway(incremental::changed(t, updates, checksums, gone)),
        incremental::changed(t, updates, checksums, gone).tables.definitions.len() <= usize::MAX,
        incremental::changed(t, updates, checksums, gone).tables.files.len() <= usize::MAX,
{
    let start = UpdateView {
        tables: TablesView { files: incremental::all_checksums(t.files, checksums), ..t },
        changes: incremental::no_changes(),
    };
    lemma_checksums(t.files, checksums);
    lemma_same_apart(t.files, start.tables.files);
    assert(underway(start));
    lemma_all_removed(start, gone);
    let middle = incremental::all_removed(start, gone);
    assert(updates.take(updates.len() as int) =~= updates);
    lemma_all_replaced(
        middle,
        updates,
        updates.len() as int,
        incremental::top(incremental::file_ids(t.files)),
        incremental::top(incremental::definition_ids(t.definitions)),
        incremental::top(incremental::ref_ids(t.refs)),
        incremental::top(incremental::call_ids(t.calls)),
        incremental::top(incremental::inherit_ids(t.inherits)),
    );
}

/// Linking rows anew leaves no row that refers to a definition that was taken out.
proof fn lemma_relinked(u: UpdateView)
    requires
        underway(u),
        u.tables.definitions.len() <= usize::MAX,
    ensures
        sound(incremental::relinked(u.tables, u.changes)),
{
    let t = u.tables;
    let c = u.changes;
    let after = incremental::relinked(t, c);
    let none = Set::<i64>::empty();
    assert forall|name: Seq<char>| in_definitions(
        t.definitions,
        none,
        #[trigger] incremental::row_resolution(t.definitions, name),
    ) by {
        lemma_resolution_is_there(t.definitions, name);
    }
    assert forall|name: Seq<char>| in_definitions(
        t.definitions,
        none,
        #[trigger] incremental::row_link(t.definitions, name),
    ) by {
        lemma_link_is_there(t.definitions, name);
    }
    assert forall|x: RefRowView| #[trigger] after.refs.contains(x) implies in_files(
        t.files,
        x.file_id,
    ) && in_definitions(t.definitions, none, x.def_id) by {
        let k = choose|k: int| 0 <= k < after.refs.len() && after.refs[k] == x;
        assert(t.refs.contains(t.refs[k]));
        assert(x == incremental::relinked_ref(t.definitions, c, t.refs[k]));
    }
    assert forall|x: CallRowView| #[trigger] after.calls.contains(x) implies in_files(
        t.files,
        x.file_id,
    ) && in_definitions(t.definitions, none, x.caller_id) && in_definitions(
        t.definitions,
        none,
        x.callee_id,
    ) by {
        let k = choose|k: int| 0 <= k < after.calls.len() && after.calls[k] == x;
        assert(t.calls.contains(t.calls[k]));
        assert(x == incremental::relinked_call(t.definitions, c, t.calls[k]));
    }
    assert forall|x: InheritRowView| #[trigger] after.inherits.contains(x) implies in_files(
        t.files,
        x.file_id,
    ) && in_definitions(t.definitions, none, x.derived_id) && in_definitions(
        t.definitions,
        none,
        x.base_id,
    ) by {
        let k = choose|k: int| 0 <= k < after.inherits.len() && after.inherits[k] == x;
        assert(t.inherits.contains(t.inherits[k]));
        assert(x == incremental::relinked_inherit(t.definitions, c, t.inherits[k]));
    }
}

/// An update of sound tables gives sound tables: rows are told apart by their numbers, and no
/// row refers to a file or a definition that is not there.
pub proof fn law_update_keeps_tables_sound(
    t: TablesView,
    updates: Seq<FileUpdateView>,
    checksums: Seq<ChecksumUpdateView>,
    gone: Seq<Seq<char>>,
)
    requires
        sound(t),
        incremental::update_fits(t, updates),
        holdable(t, updates),
    ensures
        sound(incremental::updated(t, updates, checksums, gone)),
{
    lemma_changed(t, updates, checksums, gone);
    lemma_relinked(incremental::changed(t, updates, checksums, gone));
}

/// Whether a number is that of a file among the updated ones.
pub open spec fn is_updated(
    files: Seq<FileRowView>,
    updates: Seq<FileUpdateView>,
    id: Option<i64>,
) -> bool {
    exists|k: int|
        0 <= k < updates.len() && id == Some(
            incremental::stored_number(files, (#[trigger] updates[k]).symbols.file),
        )
}

/// Where the row of a path stands.
pub proof fn lemma_row_of(files: Seq<FileRowView>, path: Seq<char>)
    requires
        files.len() <= usize::MAX,
    ensures
        match incremental::row_of(files, path) {
            Some(k) => 0 <= k < files.len() && files[k].path == path,
            None => forall|i: int| 0 <= i < files.len() ==> (#[trigger] files[i]).path != path,
        },
{
    let keys = incremental::row_paths(files);
    let at = index::spots(keys, path);
    index::lemma_spots(keys, path);
    if at.len() > 0 {
        assert(keys[at[0] as int] == path);
    } else {
        assert forall|i: int| 0 <= i < files.len() implies (#[trigger] files[i]).path != path by {
            if files[i].path == path {
                assert(keys[i] == path);
                assert(at.contains(i as usize));
            }
        }
    }
}

/// The updated files are among the written ones, under the numbers they have in the end.
proof fn lemma_written(u: UpdateView, fs: Seq<FileUpdateView>, n: int)
    requires
        0 <= n <= fs.len(),
        forall|m: int|
            0 <= m <= n ==> files_apart(
                (#[trigger] incremental::all_replaced(u, fs.take(m))).tables.files,
            ),
        forall|m: int|
            0 <= m <= n ==> (#[trigger] incremental::all_replaced(u, fs.take(m))).tables.files.len()
                <= usize::MAX,
    ensures
        ({
            let v = incremental::all_replaced(u, fs.take(n));
            forall|k: int|
                0 <= k < n ==> incremental::row_of(
                    v.tables.files,
                    (#[trigger] fs[k]).symbols.file,
                ) is Some && v.changes.files.contains(
                    incremental::stored_number(v.tables.files, fs[k].symbols.file),
                )
        }),
    decreases n,
{
    if n > 0 {
        lemma_written(u, fs, n - 1);
        let before = incremental::all_replaced(u, fs.take(n - 1));
        let after = incremental::all_replaced(u, fs.take(n));
        let x = fs[n - 1];
        assert(fs.take(n).drop_last() =~= fs.take(n - 1));
        assert(fs.take(n).last() == x);
        let path = x.symbols.file;
        lemma_row_of(before.tables.files, path);
        lemma_row_of(after.tables.files, path);
        assert(files_apart(after.tables.files));
        assert forall|k: int| 0 <= k < n implies incremental::row_of(
            after.tables.files,
            (#[trigger] fs[k]).symbols.file,
        ) is Some && after.changes.files.contains(
            incremental::stored_number(after.tables.files, fs[k].symbols.file),
        ) by {
            let p = fs[k].symbols.file;
            lemma_row_of(before.tables.files, p);
            lemma_row_of(after.tables.files, p);
            if p == path {
                let at = match incremental::row_of(before.tables.files, path) {
                    Some(j) => j,
                    None => before.tables.files.len() as int,
                };
                assert(after.tables.files[at].path == path);
                lemma_same_row(after.tables.files, at);
            } else {
                let j = incremental::row_of(before.tables.files, p)->0;
                assert(after.tables.files[j] == before.tables.files[j]);
                lemma_same_row(after.tables.files, j);
            }
        }
    }
}

/// Where files are apart, the row of a path is the only one with it.
pub proof fn lemma_same_row(files: Seq<FileRowView>, at: int)
    requires
        files_apart(files),
        files.len() <= usize::MAX,
        0 <= at < files.len(),
    ensures
        incremental::row_of(files, files[at].path) == Some(at),
{
    lemma_row_of(files, files[at].path);
    if let Some(k) = incremental::row_of(files, files[at].path) {
        if k < at {
            assert(file_path()(files[k]) != file_path()(files[at]));
        } else if at < k {
            assert(file_path()(files[at]) != file_path()(files[k]));
        }
    }
}

/// After an update, every reference of an updated file is linked to what its name resolves to,
/// and every end of a call or an inheritance edge to what its name stands for, in the updated
/// tables.
pub proof fn law_updated_files_are_linked(
    t: TablesView,
    updates: Seq<FileUpdateView>,
    checksums: Seq<ChecksumUpdateView>,
    gone: Seq<Seq<char>>,
)
    requires
        sound(t),
        incremental::update_fits(t, updates),
        holdable(t, updates),
    ensures
        ({
            let r = incremental::updated(t, updates, checksums, gone);
            &&& forall|k: int|
                0 <= k < r.refs.len() && is_updated(
                    r.files,
                    updates,
                    (#[trigger] r.refs[k]).file_id,
                ) ==> r.refs[k].def_id == incremental::row_resolution(
                    r.definitions,
                    r.refs[k].name,
                )
            &&& forall|k: int|
                0 <= k < r.calls.len() && is_updated(
                    r.files,
                    updates,
                    (#[trigger] r.calls[k]).file_id,
                ) ==> r.calls[k].caller_id == incremental::row_link(
                    r.definitions,
                    r.calls[k].caller_name,
                ) && r.calls[k].callee_id == incremental::row_link(
                    r.definitions,
                    r.calls[k].callee_name,
                )
            &&& forall|k: int|
                0 <= k < r.inherits.len() && is_updated(
                    r.files,
                    updates,
                    (#[trigger] r.inherits[k]).file_id,
                ) ==> r.inherits[k].derived_id == incremental::row_link(
                    r.definitions,
                    r.inherits[k].derived_name,
                ) && r.inherits[k].base_id == incremental::row_link(
                    r.definitions,
                    r.inherits[k].base_name,
                )
        }),
{
    lemma_changed(t, updates, checksums, gone);
    let u = incremental::changed(t, updates, checksums, gone);
    let r = incremental::updated(t, updates, checksums, gone);
    let start = UpdateView {
        tables: TablesView { files: incremental::all_checksums(t.files, checksums), ..t },
        changes: incremental::no_changes(),
    };
    let middle = incremental::all_removed(start, gone);
    lemma_checksums(t.files, checksums);
    lemma_same_apart(t.files, start.tables.files);
    lemma_all_removed(start, gone);
    assert forall|m: int| 0 <= m <= updates.len() implies files_apart(
        (#[trigger] incremental::all_replaced(middle, updates.take(m))).tables.files,
    ) && incremental::all_replaced(middle, updates.take(m)).tables.files.len() <= usize::MAX by {
        lemma_all_replaced(
            middle,
            updates,
            m,
            incremental::top(incremental::file_ids(t.files)),
            incremental::top(incremental::definition_ids(t.definitions)),
            incremental::top(incremental::ref_ids(t.refs)),
            incremental::top(incremental::call_ids(t.calls)),
            incremental::top(incremental::inherit_ids(t.inherits)),
        );
    }
    lemma_written(middle, updates, updates.len() as int);
    assert(updates.take(updates.len() as int) =~= updates);
    assert forall|id: Option<i64>| #[trigger] is_updated(
        r.files,
        updates,
        id,
    ) implies incremental::is_written(u.changes, id) by {
        let k = choose|k: int|
            0 <= k < updates.len() && id == Some(
                incremental::stored_number(r.files, (#[trigger] updates[k]).symbols.file),
            );
        assert(u.changes.files.contains(
            incremental::stored_number(u.tables.files, updates[k].symbols.file),
        ));
    }
    assert forall|k: int| 0 <= k < r.refs.len() && is_updated(
        r.files,
        updates,
        (#[trigger] r.refs[k]).file_id,
    ) implies r.refs[k].def_id == incremental::row_resolution(r.definitions, r.refs[k].name) by {
        assert(u.tables.refs.contains(u.tables.refs[k]));
    }
    assert forall|k: int| 0 <= k < r.calls.len() && is_updated(
        r.files,
        updates,
        (#[trigger] r.calls[k]).file_id,
    ) implies r.calls[k].caller_id == incremental::row_link(
        r.definitions,
        r.calls[k].caller_name,
    ) && r.calls[k].callee_id == incremental::row_link(
        r.definitions,
        r.calls[k].callee_name,
    ) by {
        assert(u.tables.calls.contains(u.tables.calls[k]));
    }
    assert forall|k: int| 0 <= k < r.inherits.len() && is_updated(
        r.files,
        updates,
        (#[trigger] r.inherits[k]).file_id,
    ) implies r.inherits[k].derived_id == incremental::row_link(
        r.definitions,
        r.inherits[k].derived_name,
    ) && r.inherits[k].base_id == incremental::row_link(
        r.definitions,
        r.inherits[k].base_name,
    ) by {
        assert(u.tables.inherits.contains(u.tables.inherits[k]));
    }
}

/// Whether the row of an updated file is the one that an update of it writes.
pub open spec fn carries(files: Seq<FileRowView>, f: FileUpdateView) -> bool {
    incremental::row_of(files, f.symbols.file) matches Some(k) && files[k].path == f.symbols.file
        && files[k].language == f.symbols.language && files[k].checksum == Some(f.checksum)
        && files[k].symbols_checksum == Some(f.symbols_checksum)
}

/// The row of an updated file stays what it became until the file is updated again.
proof fn lemma_carries(u: UpdateView, fs: Seq<FileUpdateView>, k: int, n: int)
    requires
        0 <= k < n <= fs.len(),
        forall|j: int| k < j < fs.len() ==> (#[trigger] fs[j]).symbols.file != fs[k].symbols.file,
        forall|m: int|
            0 <= m <= n ==> files_apart(
                (#[trigger] incremental::all_replaced(u, fs.take(m))).tables.files,
            ),
        forall|m: int|
            0 <= m <= n ==> (#[trigger] incremental::all_replaced(u, fs.take(m))).tables.files.len()
                <= usize::MAX,
    ensures
        carries(incremental::all_replaced(u, fs.take(n)).tables.files, fs[k]),
    decreases n,
{
    let before = incremental::all_replaced(u, fs.take(n - 1)).tables.files;
    let after = incremental::all_replaced(u, fs.take(n)).tables.files;
    let x = fs[n - 1];
    assert(fs.take(n).drop_last() =~= fs.take(n - 1));
    assert(fs.take(n).last() == x);
    assert(files_apart(after));
    lemma_row_of(before, x.symbols.file);
    if n - 1 == k {
        let at = match incremental::row_of(before, x.symbols.file) {
            Some(j) => j,
            None => before.len() as int,
        };
        assert(after[at].path == x.symbols.file);
        lemma_same_row(after, at);
    } else {
        lemma_carries(u, fs, k, n - 1);
        let j = incremental::row_of(before, fs[k].symbols.file)->0;
        lemma_row_of(before, fs[k].symbols.file);
        assert(after[j] == before[j]);
        lemma_same_row(after, j);
    }
}

/// After an update the row of each updated file carries the language and the checksums that the
/// update brought, those of the last one where a file is updated several times.
pub proof fn law_updated_files_carry_their_checksums(
    t: TablesView,
    updates: Seq<FileUpdateView>,
    checksums: Seq<ChecksumUpdateView>,
    gone: Seq<Seq<char>>,
    k: int,
)
    requires
        sound(t),
        incremental::update_fits(t, updates),
        holdable(t, updates),
        0 <= k < updates.len(),
        forall|j: int|
            k < j < updates.len() ==> (#[trigger] updates[j]).symbols.file
                != updates[k].symbols.file,
    ensures
        carries(incremental::updated(t, updates, checksums, gone).files, updates[k]),
{
    let start = UpdateView {
        tables: TablesView { files: incremental::all_checksums(t.files, checksums), ..t },
        changes: incremental::no_changes(),
    };
    let middle = incremental::all_removed(start, gone);
    lemma_checksums(t.files, checksums);
    lemma_same_apart(t.files, start.tables.files);
    lemma_all_removed(start, gone);
    assert forall|m: int| 0 <= m <= updates.len() implies files_apart(
        (#[trigger] incremental::all_replaced(middle, updates.take(m))).tables.files,
    ) && incremental::all_replaced(middle, updates.take(m)).tables.files.len() <= usize::MAX by {
        lemma_all_replaced(
            middle,
            updates,
            m,
            incremental::top(incremental::file_ids(t.files)),
            incremental::top(incremental::definition_ids(t.definitions)),
            incremental::top(incremental::ref_ids(t.refs)),
            incremental::top(incremental::call_ids(t.calls)),
            incremental::top(incremental::inherit_ids(t.inherits)),
        );
    }
    lemma_carries(middle, updates, k, updates.len() as int);
    assert(updates.take(updates.len() as int) =~= updates);
}

/// An update of nothing leaves the tables as they are.
pub proof fn law_empty_update_changes_nothing(t: TablesView)
    ensures
        incremental::updated(t, Seq::empty(), Seq::empty(), Seq::empty()) == t,
{
    let r = incremental::updated(t, Seq::empty(), Seq::empty(), Seq::empty());
    assert(r.refs =~= t.refs);
    assert(r.calls =~= t.calls);
    assert(r.inherits =~= t.inherits);
}

/// The tables that store an index are sound, where each file of the index has a path of its own.
pub proof fn law_saved_tables_are_sound(ix: IndexView, contents: Seq<Option<Seq<char>>>)
    requires
        save::fits(ix),
        ix.files.len() <= usize::MAX,
        ix.definitions.len() <= usize::MAX,
        save::paths(ix.files).no_duplicates(),
    ensures
        sound(save::saved(ix, contents)),
{
    let t = save::saved(ix, contents);
    let ids = incremental::file_ids(t.files);
    let numbers = incremental::definition_ids(t.definitions);
    assert forall|i: int, j: int| 0 <= i < j < t.files.len() implies file_path()(
        #[trigger] t.files[i],
    ) != file_path()(#[trigger] t.files[j]) by {
        assert(save::paths(ix.files)[i] != save::paths(ix.files)[j]);
    }
    assert forall|path: Seq<char>| in_files(
        t.files,
        #[trigger] save::file_number(ix.files, path),
    ) by {
        let at = index::spots(save::paths(ix.files), path);
        index::lemma_spots(save::paths(ix.files), path);
        if at.len() > 0 {
            let k = at[at.len() - 1] as int;
            assert(ids[k] == k + 1);
        }
    }
    assert forall|id: DefId| id.0 < ix.definitions.len() implies in_definitions(
        t.definitions,
        Set::empty(),
        #[trigger] save::definition_number(Some(id)),
    ) by {
        assert(numbers[id.0 as int] == id.0 + 1);
    }
    assert forall|name: Seq<char>| in_definitions(
        t.definitions,
        Set::empty(),
        #[trigger] save::link_of(ix.definitions, name),
    ) by {
        index::lemma_linked_to(ix.definitions, name);
    }
    assert forall|x: DefinitionRowView| #[trigger] t.definitions.contains(x) implies in_files(
        t.files,
        x.file_id,
    ) by {
        let k = choose|k: int| 0 <= k < t.definitions.len() && t.definitions[k] == x;
    }
    assert forall|x: RefRowView| #[trigger] t.refs.contains(x) implies in_files(
        t.files,
        x.file_id,
    ) && in_definitions(t.definitions, Set::empty(), x.def_id) by {
        let k = choose|k: int| 0 <= k < t.refs.len() && t.refs[k] == x;
        assert(x == save::saved_ref(ix, k));
    }
    assert forall|x: CallRowView| #[trigger] t.calls.contains(x) implies in_files(
        t.files,
        x.file_id,
    ) && in_definitions(t.definitions, Set::empty(), x.caller_id) && in_definitions(
        t.definitions,
        Set::empty(),
        x.callee_id,
    ) by {
        let k = choose|k: int| 0 <= k < t.calls.len() && t.calls[k] == x;
        assert(x == save::saved_call(ix, k));
    }
    assert forall|x: InheritRowView| #[trigger] t.inherits.contains(x) implies in_files(
        t.files,
        x.file_id,
    ) && in_definitions(t.definitions, Set::empty(), x.derived_id) && in_definitions(
        t.definitions,
        Set::empty(),
        x.base_id,
    ) by {
        let k = choose|k: int| 0 <= k < t.inherits.len() && t.inherits[k] == x;
        assert(x == save::saved_inherit(ix, k));
        assert(x.derived_id == save::link_of(ix.definitions, ix.inherits[k].derived_name));
    }
}

} // verus!
