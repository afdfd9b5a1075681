//! What the tables hold of each file after an update.
use crate::incremental::{ChecksumUpdateView, FileUpdateView, UpdateView};
use crate::incremental;
use crate::incremental_laws;
use crate::rows::{
    CallRowView, DefinitionRowView, FileRowView, InheritRowView, RefRowView, TablesView,
};
use crate::save;
use crate::types::{CallEdgeView, DefinitionView, FileSymbolsView, InheritEdgeView, ReferenceView};
use vstd::prelude::*;

verus! {

/// What tables hold of a file: its rows in their order, without numbers and links.
pub struct Contents {
    pub definitions: Seq<DefinitionRowView>,
    pub refs: Seq<RefRowView>,
    pub calls: Seq<CallRowView>,
    pub inherits: Seq<InheritRowView>,
}

/// A definition row without its numbers.
pub open spec fn bare_definition() -> spec_fn(DefinitionRowView) -> DefinitionRowView {
    |r: DefinitionRowView| DefinitionRowView { id: 0, file_id: None, ..r }
}

/// A reference row without its numbers.
pub open spec fn bare_ref() -> spec_fn(RefRowView) -> RefRowView {
    |r: RefRowView| RefRowView { id: 0, file_id: None, def_id: None, ..r }
}

/// A call row without its numbers.
pub open spec fn bare_call() -> spec_fn(CallRowView) -> CallRowView {
    |r: CallRowView| CallRowView { id: 0, file_id: None, caller_id: None, callee_id: None, ..r }
}

/// An inheritance row without its numbers.
pub open spec fn bare_inherit() -> spec_fn(InheritRowView) -> InheritRowView {
    |r: InheritRowView|
        InheritRowView { id: 0, file_id: None, derived_id: None, base_id: None, ..r }
}

/// Tells the definition rows of a file.
pub open spec fn definition_of(id: i64) -> spec_fn(DefinitionRowView) -> bool {
    |r: DefinitionRowView| r.file_id == Some(id)
}

/// Tells the reference rows of a file.
pub open spec fn ref_of(id: i64) -> spec_fn(RefRowView) -> bool {
    |r: RefRowView| r.file_id == Some(id)
}

/// Tells the call rows of a file.
pub open spec fn call_of(id: i64) -> spec_fn(CallRowView) -> bool {
    |r: CallRowView| r.file_id == Some(id)
}

/// Tells the inheritance rows of a file.
pub open spec fn inherit_of(id: i64) -> spec_fn(InheritRowView) -> bool {
    |r: InheritRowView| r.file_id == Some(id)
}

/// What tables hold of the file with a number.
pub open spec fn contents_at(t: TablesView, id: i64) -> Contents {
    Contents {
        definitions: t.definitions.filter(definition_of(id)).map_values(bare_definition()),
        refs: t.refs.filter(ref_of(id)).map_values(bare_ref()),
        calls: t.calls.filter(call_of(id)).map_values(bare_call()),
        inherits: t.inherits.filter(inherit_of(id)).map_values(bare_inherit()),
    }
}

/// The number of the file at a path.
pub open spec fn number_at(files: Seq<FileRowView>, path: Seq<char>) -> Option<i64> {
    match incremental::row_of(files, path) {
        Some(k) => Some(files[k].id),
        None => None,
    }
}

/// What tables hold of the file at a path, where they know one.
pub open spec fn contents(t: TablesView, path: Seq<char>) -> Option<Contents> {
    match number_at(t.files, path) {
        Some(id) => Some(contents_at(t, id)),
        None => None,
    }
}

/// What tables hold of a file with given symbols.
pub open spec fn contents_of(f: FileSymbolsView) -> Contents {
    Contents {
        definitions: f.definitions.map_values(
            |d: DefinitionView| save::definition_row(0, None, d),
        ),
        refs: f.references.map_values(|r: ReferenceView| save::ref_row(0, None, None, r)),
        calls: f.calls.map_values(|c: CallEdgeView| save::call_row(0, None, None, None, c)),
        inherits: f.inherits.map_values(
            |e: InheritEdgeView| save::inherit_row(0, None, None, None, e),
        ),
    }
}

/// What tables hold of the file at a path after files were taken out.
pub open spec fn contents_without(
    before: Option<Contents>,
    gone: Seq<Seq<char>>,
    path: Seq<char>,
) -> Option<Contents> {
    if gone.contains(path) {
        None
    } else {
        before
    }
}

/// What tables hold of the file at a path after files were replaced: the symbols that came last.
pub open spec fn contents_with(
    before: Option<Contents>,
    updates: Seq<FileUpdateView>,
    path: Seq<char>,
) -> Option<Contents>
    decreases updates.len(),
{
    if updates.len() == 0 {
        before
    } else if updates.last().symbols.file == path {
        Some(contents_of(updates.last().symbols))
    } else {
        contents_with(before, updates.drop_last(), path)
    }
}

/// A filter that keeps all that another one keeps hides nothing from it.
proof fn lemma_filter_twice<T>(s: Seq<T>, p: spec_fn(T) -> bool, q: spec_fn(T) -> bool)
    requires
        forall|x: T| #[trigger] q(x) ==> p(x),
    ensures
        s.filter(p).filter(q) == s.filter(q),
    decreases s.len(),
{
    reveal(Seq::filter);
    if s.len() > 0 {
        let short = s.drop_last();
        lemma_filter_twice(short, p, q);
        if p(s.last()) {
            assert(short.filter(p).push(s.last()).drop_last() =~= short.filter(p));
        }
    }
}

/// A filter that keeps nothing.
proof fn lemma_filter_none<T>(s: Seq<T>, q: spec_fn(T) -> bool)
    requires
        forall|x: T| #[trigger] s.contains(x) ==> !q(x),
    ensures
        s.filter(q) == Seq::<T>::empty(),
{
    incremental_laws::lemma_filter(s, q);
    if s.filter(q).len() > 0 {
        assert(s.filter(q).contains(s.filter(q)[0]));
    }
    assert(s.filter(q) =~= Seq::<T>::empty());
}

/// A filter that keeps everything.
pub proof fn lemma_filter_all<T>(s: Seq<T>, q: spec_fn(T) -> bool)
    requires
        forall|i: int| 0 <= i < s.len() ==> q(#[trigger] s[i]),
    ensures
        s.filter(q) == s,
    decreases s.len(),
{
    reveal(Seq::filter);
    if s.len() > 0 {
        let short = s.drop_last();
        assert forall|i: int| 0 <= i < short.len() implies q(#[trigger] short[i]) by {
            assert(short[i] == s[i]);
        }
        lemma_filter_all(short, q);
        assert(q(s[s.len() - 1]));
        assert(s =~= short.push(s.last()));
    } else {
        assert(s.filter(q) =~= s);
    }
}

/// Rows that are changed in ways that neither a filter nor what is shown of them notices.
proof fn lemma_changed_rows<T, U>(
    s: Seq<T>,
    f: spec_fn(T) -> T,
    q: spec_fn(T) -> bool,
    g: spec_fn(T) -> U,
)
    requires
        forall|x: T| q(#[trigger] f(x)) == q(x) && g(f(x)) == g(x),
    ensures
        s.map_values(f).filter(q).map_values(g) == s.filter(q).map_values(g),
    decreases s.len(),
{
    reveal(Seq::filter);
    let m = s.map_values(f);
    if s.len() > 0 {
        let short = s.drop_last();
        lemma_changed_rows(short, f, q, g);
        assert(m.drop_last() =~= short.map_values(f));
        let kept = short.filter(q);
        let changed = short.map_values(f).filter(q);
        if q(s.last()) {
            assert(kept.push(s.last()).map_values(g) =~= kept.map_values(g).push(g(s.last())));
            assert(changed.push(m.last()).map_values(g) =~= changed.map_values(g).push(
                g(m.last()),
            ));
        }
    } else {
        assert(m =~= Seq::<T>::empty());
        assert(m.filter(q).map_values(g) =~= s.filter(q).map_values(g));
    }
}

/// The number of a file is that of the row with its path.
proof fn lemma_number_at(files: Seq<FileRowView>, path: Seq<char>)
    requires
        incremental_laws::files_apart(files),
        files.len() <= usize::MAX,
    ensures
        match number_at(files, path) {
            Some(id) => exists|x: FileRowView|
                #[trigger] files.contains(x) && x.path == path && x.id == id,
            None => forall|x: FileRowView| #[trigger] files.contains(x) ==> x.path != path,
        },
        forall|x: FileRowView| #[trigger]
            files.contains(x) && x.path == path ==> number_at(files, path) == Some(x.id),
{
    incremental_laws::lemma_row_of(files, path);
    if let Some(k) = incremental::row_of(files, path) {
        assert(files.contains(files[k]));
        assert forall|x: FileRowView| #[trigger]
            files.contains(x) && x.path == path implies number_at(files, path) == Some(x.id) by {
            let i = choose|i: int| 0 <= i < files.len() && files[i] == x;
            let by_path = incremental_laws::file_path();
            if i < k {
                assert(by_path(files[i]) != by_path(files[k]));
            } else if k < i {
                assert(by_path(files[k]) != by_path(files[i]));
            }
        }
    }
}

/// Two rows with one number are one row.
proof fn lemma_one_row(files: Seq<FileRowView>, x: FileRowView, y: FileRowView)
    requires
        incremental_laws::files_apart(files),
        files.contains(x),
        files.contains(y),
        x.id == y.id,
    ensures
        x == y,
{
    let i = choose|i: int| 0 <= i < files.len() && files[i] == x;
    let j = choose|j: int| 0 <= j < files.len() && files[j] == y;
    let by_id = incremental_laws::file_id();
    if i < j {
        assert(by_id(files[i]) != by_id(files[j]));
    } else if j < i {
        assert(by_id(files[j]) != by_id(files[i]));
    }
}

/// Taking out the symbols of a file leaves those of others.
proof fn lemma_cleared_elsewhere(t: TablesView, id: i64, other: i64)
    requires
        id != other,
    ensures
        contents_at(incremental::cleared(t, id), other) == contents_at(t, other),
{
    lemma_filter_twice(t.definitions, incremental::definition_elsewhere(id), definition_of(other));
    lemma_filter_twice(t.refs, incremental::ref_elsewhere(id), ref_of(other));
    lemma_filter_twice(t.calls, incremental::call_elsewhere(id), call_of(other));
    lemma_filter_twice(
        t.inherits,
        incremental::inherit_elsewhere(t.definitions, id),
        inherit_of(other),
    );
}

/// What tables hold of a file after a file was taken out.
proof fn lemma_removed(u: UpdateView, gone: Seq<char>, path: Seq<char>)
    requires
        incremental_laws::underway(u),
        u.tables.files.len() <= usize::MAX,
    ensures
        contents(incremental::removed(u, gone).tables, path) == contents_without(
            contents(u.tables, path),
            seq![gone],
            path,
        ),
{
    let t = u.tables;
    assert(seq![gone].contains(path) <==> gone == path) by {
        assert(seq![gone][0] == gone);
    }
    lemma_number_at(t.files, gone);
    lemma_number_at(t.files, path);
    if let Some(k) = incremental::row_of(t.files, gone) {
        let id = t.files[k].id;
        let after = incremental::removed(u, gone).tables;
        incremental_laws::lemma_removed(u, gone);
        incremental_laws::lemma_filter(t.files, incremental::file_elsewhere(id));
        lemma_number_at(after.files, path);
        let taken = choose|x: FileRowView|
            #[trigger] t.files.contains(x) && x.path == gone && x.id == id;
        match number_at(t.files, path) {
            Some(other) => {
                let row = choose|x: FileRowView|
                    #[trigger] t.files.contains(x) && x.path == path && x.id == other;
                if path == gone {
                    if let Some(left) = number_at(after.files, path) {
                        let x = choose|x: FileRowView|
                            #[trigger] after.files.contains(x) && x.path == path && x.id == left;
                        assert(t.files.contains(x));
                    }
                } else {
                    if other == id {
                        lemma_one_row(t.files, taken, row);
                    }
                    assert(after.files.contains(row));
                    lemma_cleared_elsewhere(t, id, other);
                    assert(contents_at(after, other) == contents_at(
                        incremental::cleared(t, id),
                        other,
                    ));
                }
            },
            None => {
                if let Some(left) = number_at(after.files, path) {
                    let x = choose|x: FileRowView|
                        #[trigger] after.files.contains(x) && x.path == path && x.id == left;
                    assert(t.files.contains(x));
                }
            },
        }
    }
}

/// Where a filter keeps nothing but what was added behind, it shows what was added.
proof fn lemma_rows_behind<T, U>(
    before: Seq<T>,
    more: Seq<T>,
    q: spec_fn(T) -> bool,
    g: spec_fn(T) -> U,
)
    requires
        forall|i: int| 0 <= i < before.len() ==> !q(#[trigger] before[i]),
        forall|i: int| 0 <= i < more.len() ==> q(#[trigger] more[i]),
    ensures
        (before + more).filter(q).map_values(g) == more.map_values(g),
{
    Seq::filter_distributes_over_add(before, more, q);
    assert forall|x: T| #[trigger] before.contains(x) implies !q(x) by {
        let i = choose|i: int| 0 <= i < before.len() && before[i] == x;
        assert(!q(before[i]));
    }
    lemma_filter_none(before, q);
    lemma_filter_all(more, q);
    assert(Seq::<T>::empty() + more =~= more);
}

/// Where a filter keeps nothing of what was added behind, it shows what it showed.
proof fn lemma_rows_elsewhere<T>(before: Seq<T>, more: Seq<T>, q: spec_fn(T) -> bool)
    requires
        forall|i: int| 0 <= i < more.len() ==> !q(#[trigger] more[i]),
    ensures
        (before + more).filter(q) == before.filter(q),
{
    Seq::filter_distributes_over_add(before, more, q);
    assert forall|x: T| #[trigger] more.contains(x) implies !q(x) by {
        let i = choose|i: int| 0 <= i < more.len() && more[i] == x;
        assert(!q(more[i]));
    }
    lemma_filter_none(more, q);
    assert(before.filter(q) + Seq::<T>::empty() =~= before.filter(q));
}

/// The rows of new symbols, shown without their numbers.
proof fn lemma_inserted(t: TablesView, id: i64, f: FileSymbolsView, other: i64)
    requires
        forall|x: DefinitionRowView| #[trigger]
            t.definitions.contains(x) ==> x.file_id != Some(id),
        forall|x: RefRowView| #[trigger] t.refs.contains(x) ==> x.file_id != Some(id),
        forall|x: CallRowView| #[trigger] t.calls.contains(x) ==> x.file_id != Some(id),
        forall|x: InheritRowView| #[trigger] t.inherits.contains(x) ==> x.file_id != Some(id),
    ensures
        contents_at(incremental::inserted(t, id, f), other) == if other == id {
            contents_of(f)
        } else {
            contents_at(t, other)
        },
{
    let after = incremental::inserted(t, id, f);
    let shown = contents_at(after, other);
    let wanted = if other == id {
        contents_of(f)
    } else {
        contents_at(t, other)
    };
    assert(shown.definitions == wanted.definitions) by {
        let more = after.definitions.skip(t.definitions.len() as int);
        assert(after.definitions =~= t.definitions + more);
        assert forall|i: int| 0 <= i < more.len() implies (#[trigger] more[i]).file_id == Some(
            id,
        ) by {
            assert(more[i] == after.definitions[t.definitions.len() + i]);
        }
        if other == id {
            assert forall|i: int| 0 <= i < t.definitions.len() implies !definition_of(other)(
                #[trigger] t.definitions[i],
            ) by {
                assert(t.definitions.contains(t.definitions[i]));
            }
            lemma_rows_behind(t.definitions, more, definition_of(other), bare_definition());
            assert(more.map_values(bare_definition()) =~= wanted.definitions);
        } else {
            lemma_rows_elsewhere(t.definitions, more, definition_of(other));
        }
    }
    assert(shown.refs == wanted.refs) by {
        let more = after.refs.skip(t.refs.len() as int);
        assert(after.refs =~= t.refs + more);
        assert forall|i: int| 0 <= i < more.len() implies (#[trigger] more[i]).file_id == Some(
            id,
        ) by {
            assert(more[i] == after.refs[t.refs.len() + i]);
        }
        if other == id {
            assert forall|i: int| 0 <= i < t.refs.len() implies !ref_of(other)(
                #[trigger] t.refs[i],
            ) by {
                assert(t.refs.contains(t.refs[i]));
            }
            lemma_rows_behind(t.refs, more, ref_of(other), bare_ref());
            assert(more.map_values(bare_ref()) =~= wanted.refs);
        } else {
            lemma_rows_elsewhere(t.refs, more, ref_of(other));
        }
    }
    assert(shown.calls == wanted.calls) by {
        let more = after.calls.skip(t.calls.len() as int);
        assert(after.calls =~= t.calls + more);
        assert forall|i: int| 0 <= i < more.len() implies (#[trigger] more[i]).file_id == Some(
            id,
        ) by {
            assert(more[i] == after.calls[t.calls.len() + i]);
        }
        if other == id {
            assert forall|i: int| 0 <= i < t.calls.len() implies !call_of(other)(
                #[trigger] t.calls[i],
            ) by {
                assert(t.calls.contains(t.calls[i]));
            }
            lemma_rows_behind(t.calls, more, call_of(other), bare_call());
            assert(more.map_values(bare_call()) =~= wanted.calls);
        } else {
            lemma_rows_elsewhere(t.calls, more, call_of(other));
        }
    }
    assert(shown.inherits == wanted.inherits) by {
        let more = after.inherits.skip(t.inherits.len() as int);
        assert(after.inherits =~= t.inherits + more);
        assert forall|i: int| 0 <= i < more.len() implies (#[trigger] more[i]).file_id == Some(
            id,
        ) by {
            assert(more[i] == after.inherits[t.inherits.len() + i]);
        }
        if other == id {
            assert forall|i: int| 0 <= i < t.inherits.len() implies !inherit_of(other)(
                #[trigger] t.inherits[i],
            ) by {
                assert(t.inherits.contains(t.inherits[i]));
            }
            lemma_rows_behind(t.inherits, more, inherit_of(other), bare_inherit());
            assert(more.map_values(bare_inherit()) =~= wanted.inherits);
        } else {
            lemma_rows_elsewhere(t.inherits, more, inherit_of(other));
        }
    }
}

/// What tables hold of a file after a file was replaced.
proof fn lemma_replaced(u: UpdateView, f: FileUpdateView, path: Seq<char>)
    requires
        incremental_laws::underway(u),
        u.tables.files.len() < usize::MAX,
        incremental::replace_fits(u.tables, f.symbols),
    ensures
        contents(incremental::replaced(u, f).tables, path) == if f.symbols.file == path {
            Some(contents_of(f.symbols))
        } else {
            contents(u.tables, path)
        },
{
    let t = u.tables;
    let own = f.symbols.file;
    let number = incremental::stored_number(t.files, own);
    let stored = incremental::row_of(t.files, own) is Some;
    let emptied = if stored {
        incremental::cleared(t, number)
    } else {
        t
    };
    let files = incremental::upserted(
        t.files,
        own,
        f.symbols.language,
        f.checksum,
        f.symbols_checksum,
    );
    let listed = TablesView { files, ..emptied };
    let after = incremental::replaced(u, f).tables;
    assert(after == incremental::inserted(listed, number, f.symbols));
    incremental_laws::lemma_upserted(t.files, f);
    incremental_laws::lemma_emptied(u, f, emptied);
    incremental_laws::lemma_filter(t.definitions, incremental::definition_elsewhere(number));
    assert forall|x: DefinitionRowView| #[trigger] emptied.definitions.contains(x) implies x.file_id
        != Some(number) by {
        if !stored {
            assert(incremental_laws::in_files(t.files, x.file_id));
        }
    }
    incremental_laws::lemma_row_of(t.files, own);
    assert(files.len() <= t.files.len() + 1);
    lemma_number_at(t.files, own);
    lemma_number_at(t.files, path);
    lemma_number_at(files, path);
    let row = FileRowView {
        id: number,
        path: own,
        language: f.symbols.language,
        checksum: Some(f.checksum),
        symbols_checksum: Some(f.symbols_checksum),
    };
    if stored {
        let k = incremental::row_of(t.files, own)->0;
        assert(files == t.files.update(k, row));
        assert(files[k] == row);
        assert(files.contains(row));
        assert(t.files.contains(t.files[k]));
    } else {
        assert(files == t.files.push(row));
        assert(files[t.files.len() as int] == row);
        assert(files.contains(row));
    }
    if path == own {
        lemma_inserted(listed, number, f.symbols, number);
    } else {
        match number_at(t.files, path) {
            Some(other) => {
                let x = choose|x: FileRowView|
                    #[trigger] t.files.contains(x) && x.path == path && x.id == other;
                let i = choose|i: int| 0 <= i < t.files.len() && t.files[i] == x;
                assert(files[i] == x);
                assert(files.contains(x));
                if other == number {
                    if stored {
                        lemma_one_row(t.files, x, t.files[incremental::row_of(t.files, own)->0]);
                    } else {
                        assert(incremental::file_ids(t.files)[i] == number);
                    }
                }
                lemma_inserted(listed, number, f.symbols, other);
                if stored {
                    lemma_cleared_elsewhere(t, number, other);
                }
                assert(contents_at(listed, other) == contents_at(emptied, other));
            },
            None => {
                if let Some(other) = number_at(files, path) {
                    let x = choose|x: FileRowView|
                        #[trigger] files.contains(x) && x.path == path && x.id == other;
                    let i = choose|i: int| 0 <= i < files.len() && files[i] == x;
                    assert(t.files[i] == x);
                    assert(t.files.contains(x));
                }
            },
        }
    }
}

/// What tables hold of a file after files were taken out.
proof fn lemma_all_removed(u: UpdateView, gone: Seq<Seq<char>>, path: Seq<char>)
    requires
        incremental_laws::underway(u),
        u.tables.files.len() <= usize::MAX,
    ensures
        contents(incremental::all_removed(u, gone).tables, path) == contents_without(
            contents(u.tables, path),
            gone,
            path,
        ),
    decreases gone.len(),
{
    if gone.len() > 0 {
        let short = gone.drop_last();
        lemma_all_removed(u, short, path);
        incremental_laws::lemma_all_removed(u, short);
        lemma_removed(incremental::all_removed(u, short), gone.last(), path);
        assert(gone =~= short.push(gone.last()));
        crate::text::lemma_push_contains(short, gone.last());
        assert(seq![gone.last()].contains(path) <==> gone.last() == path) by {
            assert(seq![gone.last()][0] == gone.last());
        }
    }
}

/// What tables hold of a file after the first of some files were replaced.
proof fn lemma_all_replaced(
    u: UpdateView,
    fs: Seq<FileUpdateView>,
    n: int,
    path: Seq<char>,
    f: int,
    d: int,
    r: int,
    c: int,
    i: int,
)
    requires
        incremental_laws::underway(u),
        0 <= n <= fs.len(),
        u.tables.files.len() + fs.len() <= usize::MAX,
        u.tables.definitions.len() + incremental::total_definitions(fs) <= usize::MAX,
        incremental::within(u.tables, f, d, r, c, i),
        f + fs.len() < i64::MAX,
        d + incremental::total_definitions(fs) < i64::MAX,
        r + incremental::total_references(fs) < i64::MAX,
        c + incremental::total_calls(fs) < i64::MAX,
        i + incremental::total_inherits(fs) < i64::MAX,
    ensures
        contents(incremental::all_replaced(u, fs.take(n)).tables, path) == contents_with(
            contents(u.tables, path),
            fs.take(n),
            path,
        ),
    decreases n,
{
    if n == 0 {
        assert(fs.take(0) =~= Seq::empty());
    } else {
        lemma_all_replaced(u, fs, n - 1, path, f, d, r, c, i);
        incremental_laws::lemma_all_replaced(u, fs, n - 1, f, d, r, c, i);
        assert(fs.take(n).drop_last() =~= fs.take(n - 1));
        assert(fs.take(n).last() == fs[n - 1]);
        incremental::lemma_totals(fs, n - 1);
        lemma_replaced(incremental::all_replaced(u, fs.take(n - 1)), fs[n - 1], path);
    }
}

/// Linking rows anew changes nothing of what tables hold of a file.
proof fn lemma_relinked(u: UpdateView, path: Seq<char>)
    ensures
        contents(incremental::relinked(u.tables, u.changes), path) == contents(u.tables, path),
{
    let t = u.tables;
    let c = u.changes;
    if let Some(id) = number_at(t.files, path) {
        lemma_changed_rows(
            t.refs,
            |r: RefRowView| incremental::relinked_ref(t.definitions, c, r),
            ref_of(id),
            bare_ref(),
        );
        lemma_changed_rows(
            t.calls,
            |r: CallRowView| incremental::relinked_call(t.definitions, c, r),
            call_of(id),
            bare_call(),
        );
        lemma_changed_rows(
            t.inherits,
            |r: InheritRowView| incremental::relinked_inherit(t.definitions, c, r),
            inherit_of(id),
            bare_inherit(),
        );
    }
}

/// After an update the tables show the files as they are now: of a file that was replaced they
/// hold the symbols that came last, of one that was taken out nothing, and of any other what
/// they held before.
pub proof fn law_update_shows_the_files(
    t: TablesView,
    updates: Seq<FileUpdateView>,
    checksums: Seq<ChecksumUpdateView>,
    gone: Seq<Seq<char>>,
    path: Seq<char>,
)
    requires
        incremental_laws::sound(t),
        incremental::update_fits(t, updates),
        incremental_laws::holdable(t, updates),
    ensures
        contents(incremental::updated(t, updates, checksums, gone), path) == contents_with(
            contents_without(contents(t, path), gone, path),
            updates,
            path,
        ),
{
    let start = UpdateView {
        tables: TablesView { files: incremental::all_checksums(t.files, checksums), ..t },
        changes: incremental::no_changes(),
    };
    incremental_laws::lemma_checksums(t.files, checksums);
    incremental_laws::lemma_same_apart(t.files, start.tables.files);
    assert(incremental_laws::underway(start));
    assert(contents(start.tables, path) == contents(t, path)) by {
        if let Some(k) = incremental::row_of(t.files, path) {
            incremental_laws::lemma_row_of(t.files, path);
            assert(incremental::file_ids(start.tables.files)[k] == incremental::file_ids(
                t.files,
            )[k]);
        }
    }
    lemma_all_removed(start, gone, path);
    incremental_laws::lemma_all_removed(start, gone);
    let middle = incremental::all_removed(start, gone);
    assert(updates.take(updates.len() as int) =~= updates);
    lemma_all_replaced(
        middle,
        updates,
        updates.len() as int,
        path,
        incremental::top(incremental::file_ids(t.files)),
        incremental::top(incremental::definition_ids(t.definitions)),
        incremental::top(incremental::ref_ids(t.refs)),
        incremental::top(incremental::call_ids(t.calls)),
        incremental::top(incremental::inherit_ids(t.inherits)),
    );
    lemma_relinked(incremental::changed(t, updates, checksums, gone), path);
}

/// What came last for a file that is replaced once is what it is replaced by.
proof fn lemma_replaced_once(
    before: Option<Contents>,
    updates: Seq<FileUpdateView>,
    k: int,
    path: Seq<char>,
)
    requires
        0 <= k < updates.len(),
        updates[k].symbols.file == path,
        forall|j: int| 0 <= j < updates.len() && j != k ==> (#[trigger] updates[j]).symbols.file != path,
    ensures
        contents_with(before, updates, path) == Some(contents_of(updates[k].symbols)),
    decreases updates.len(),
{
    if k < updates.len() - 1 {
        let short = updates.drop_last();
        assert(updates[updates.len() - 1].symbols.file != path);
        assert forall|j: int| 0 <= j < short.len() && j != k implies (
        #[trigger] short[j]).symbols.file != path by {
            assert(short[j] == updates[j]);
        }
        lemma_replaced_once(before, short, k, path);
    }
}

/// A file that is not replaced shows what it showed.
proof fn lemma_not_replaced(
    before: Option<Contents>,
    updates: Seq<FileUpdateView>,
    path: Seq<char>,
)
    requires
        forall|j: int| 0 <= j < updates.len() ==> (#[trigger] updates[j]).symbols.file != path,
    ensures
        contents_with(before, updates, path) == before,
    decreases updates.len(),
{
    if updates.len() > 0 {
        let short = updates.drop_last();
        assert(updates[updates.len() - 1].symbols.file != path);
        assert forall|j: int| 0 <= j < short.len() implies (#[trigger] short[j]).symbols.file
            != path by {
            assert(short[j] == updates[j]);
        }
        lemma_not_replaced(before, short, path);
    }
}

/// An update of sound tables that replaces each file at most once and takes out none of those
/// gives sound tables, in which every row refers to files and definitions that are there. No
/// file that was taken out is listed, whether it was known before or not. Each replaced file has
/// exactly the rows of its new symbols, and its new checksums.
pub proof fn law_update_is_whole(
    t: TablesView,
    updates: Seq<FileUpdateView>,
    checksums: Seq<ChecksumUpdateView>,
    gone: Seq<Seq<char>>,
)
    requires
        incremental_laws::sound(t),
        incremental::update_fits(t, updates),
        incremental_laws::holdable(t, updates),
        forall|i: int, j: int|
            0 <= i < j < updates.len() ==> (#[trigger] updates[i]).symbols.file != (
            #[trigger] updates[j]).symbols.file,
        forall|i: int|
            0 <= i < updates.len() ==> !gone.contains((#[trigger] updates[i]).symbols.file),
    ensures
        ({
            let r = incremental::updated(t, updates, checksums, gone);
            &&& incremental_laws::sound(r)
            &&& forall|i: int|
                0 <= i < r.files.len() ==> !gone.contains((#[trigger] r.files[i]).path)
            &&& forall|k: int|
                0 <= k < updates.len() ==> contents(r, (#[trigger] updates[k]).symbols.file)
                    == Some(contents_of(updates[k].symbols)) && incremental_laws::carries(
                    r.files,
                    updates[k],
                )
        }),
{
    let r = incremental::updated(t, updates, checksums, gone);
    incremental_laws::law_update_keeps_tables_sound(t, updates, checksums, gone);
    incremental_laws::lemma_changed(t, updates, checksums, gone);
    assert forall|i: int| 0 <= i < r.files.len() implies !gone.contains(
        (#[trigger] r.files[i]).path,
    ) by {
        let path = r.files[i].path;
        if gone.contains(path) {
            law_update_shows_the_files(t, updates, checksums, gone, path);
            lemma_not_replaced(None, updates, path);
            incremental_laws::lemma_row_of(r.files, path);
        }
    }
    assert forall|k: int| 0 <= k < updates.len() implies contents(
        r,
        (#[trigger] updates[k]).symbols.file,
    ) == Some(contents_of(updates[k].symbols)) && incremental_laws::carries(
        r.files,
        updates[k],
    ) by {
        let path = updates[k].symbols.file;
        assert forall|j: int| 0 <= j < updates.len() && j != k implies (
        #[trigger] updates[j]).symbols.file != path by {
            if j < k {
                assert(updates[j].symbols.file != updates[k].symbols.file);
            } else {
                assert(updates[k].symbols.file != updates[j].symbols.file);
            }
        }
        law_update_shows_the_files(t, updates, checksums, gone, path);
        lemma_replaced_once(contents_without(contents(t, path), gone, path), updates, k, path);
        incremental_laws::law_updated_files_carry_their_checksums(
            t,
            updates,
            checksums,
            gone,
            k,
        );
    }
}

} // verus!
