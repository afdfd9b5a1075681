//! What the rows of all files are linked to after an update.
use crate::contents_laws;
use crate::incremental::{ChecksumUpdateView, FileUpdateView, UpdateView};
use crate::incremental;
use crate::incremental_laws;
use crate::index::IndexView;
use crate::index;
use crate::rows::{CallRowView, DefinitionRowView, InheritRowView, RefRowView, TablesView};
use crate::save;
use crate::text;
use crate::types::{DefId, DefinitionView, ReferenceView};
use vstd::prelude::*;

verus! {

/// Tells the definition rows with a qualified name.
pub open spec fn qualified_as(name: Seq<char>) -> spec_fn(DefinitionRowView) -> bool {
    |d: DefinitionRowView| d.qualified_name == name
}

/// Tells the definition rows with a simple name.
pub open spec fn named_as(name: Seq<char>) -> spec_fn(DefinitionRowView) -> bool {
    |d: DefinitionRowView| d.name == name
}

/// Whether a number is that of the definition that a name resolves to, or is missing where there
/// is none.
pub open spec fn is_right(
    definitions: Seq<DefinitionRowView>,
    name: Seq<char>,
    id: Option<i64>,
) -> bool {
    id == incremental::row_resolution(definitions, name)
}

/// Whether a number is that of the definition that a name is linked to as an end of a call or an
/// inheritance edge, or is missing where there is none.
pub open spec fn is_linked(
    definitions: Seq<DefinitionRowView>,
    name: Seq<char>,
    id: Option<i64>,
) -> bool {
    id == incremental::row_link(definitions, name)
}

/// Whether every reference is linked to what its name resolves to, and every end of a call or an
/// inheritance edge to what its name stands for.
pub open spec fn linked(t: TablesView) -> bool {
    &&& forall|x: RefRowView| #[trigger]
        t.refs.contains(x) ==> is_right(t.definitions, x.name, x.def_id)
    &&& forall|x: CallRowView| #[trigger]
        t.calls.contains(x) ==> is_linked(t.definitions, x.caller_name, x.caller_id) && is_linked(
            t.definitions,
            x.callee_name,
            x.callee_id,
        )
    &&& forall|x: InheritRowView| #[trigger]
        t.inherits.contains(x) ==> is_linked(t.definitions, x.derived_name, x.derived_id)
            && is_linked(t.definitions, x.base_name, x.base_id)
}

/// The rows that a key picks out are those that a filter keeps.
proof fn lemma_picked<T>(
    s: Seq<T>,
    keys: Seq<Seq<char>>,
    key: Seq<char>,
    p: spec_fn(T) -> bool,
)
    requires
        s.len() <= usize::MAX,
        keys.len() == s.len(),
        forall|i: int| 0 <= i < s.len() ==> p(#[trigger] s[i]) == (keys[i] == key),
    ensures
        index::picked(s, index::spots(keys, key)) == s.filter(p),
    decreases s.len(),
{
    reveal(Seq::filter);
    if s.len() > 0 {
        let short = s.drop_last();
        let before = index::spots(keys.drop_last(), key);
        assert forall|i: int| 0 <= i < short.len() implies p(#[trigger] short[i]) == (
        keys.drop_last()[i] == key) by {
            assert(short[i] == s[i]);
        }
        lemma_picked(short, keys.drop_last(), key, p);
        index::lemma_spots(keys.drop_last(), key);
        assert(index::picked(s, before) =~= index::picked(short, before));
        assert(p(s[s.len() - 1]) == (keys[s.len() - 1] == key));
        if keys.last() == key {
            assert(index::picked(s, before.push((s.len() - 1) as usize)) =~= index::picked(
                s,
                before,
            ).push(s.last()));
        }
    } else {
        assert(index::picked(s, index::spots(keys, key)) =~= s.filter(p));
    }
}

/// What a name resolves to, and what it is linked to, depend on the rows that go by it alone.
proof fn lemma_resolution(definitions: Seq<DefinitionRowView>, name: Seq<char>)
    requires
        definitions.len() <= usize::MAX,
    ensures
        ({
            let exact = definitions.filter(qualified_as(name));
            let simple = definitions.filter(named_as(name));
            &&& incremental::row_resolution(definitions, name) == if exact.len() == 1 {
                Some(exact[0].id)
            } else if exact.len() == 0 && simple.len() == 1 {
                Some(simple[0].id)
            } else {
                None
            }
            &&& incremental::row_link(definitions, name) == if exact.len() > 0 {
                Some(incremental::top(incremental::definition_ids(exact)) as i64)
            } else if simple.len() == 1 {
                Some(simple[0].id)
            } else {
                None
            }
        }),
{
    lemma_picked(
        definitions,
        incremental::row_qualified_names(definitions),
        name,
        qualified_as(name),
    );
    lemma_picked(definitions, incremental::row_names(definitions), name, named_as(name));
    let exact = index::spots(incremental::row_qualified_names(definitions), name);
    let simple = index::spots(incremental::row_names(definitions), name);
    assert(index::picked(definitions, exact).len() == exact.len());
    assert(index::picked(definitions, simple).len() == simple.len());
    if exact.len() == 1 {
        assert(index::picked(definitions, exact)[0] == definitions[exact[0] as int]);
    }
    if simple.len() == 1 {
        assert(index::picked(definitions, simple)[0] == definitions[simple[0] as int]);
    }
}

/// What is known of a reference and the number that it is linked to, between the steps of an
/// update: the link is right, or it is to be made anew.
pub open spec fn ref_known(u: UpdateView, name: Seq<char>, id: Option<i64>) -> bool {
    is_right(u.tables.definitions, name, id) || u.changes.propagate.contains(name)
}

/// What is known of an end of a call or an inheritance edge, between the steps of an update: its
/// link is right, or it is to be made anew.
pub open spec fn end_known(u: UpdateView, name: Seq<char>, id: Option<i64>) -> bool {
    is_linked(u.tables.definitions, name, id) || u.changes.propagate.contains(name)
}

/// What is known of the links between the steps of an update.
pub open spec fn links_known(u: UpdateView) -> bool {
    let c = u.changes;
    &&& forall|x: RefRowView| #[trigger]
        u.tables.refs.contains(x) && !incremental::is_written(c, x.file_id) ==> ref_known(
            u,
            x.name,
            x.def_id,
        )
    &&& forall|x: CallRowView| #[trigger]
        u.tables.calls.contains(x) && !incremental::is_written(c, x.file_id) ==> end_known(
            u,
            x.caller_name,
            x.caller_id,
        ) && end_known(u, x.callee_name, x.callee_id)
    &&& forall|x: InheritRowView| #[trigger]
        u.tables.inherits.contains(x) && !incremental::is_written(c, x.file_id) ==> end_known(
            u,
            x.derived_name,
            x.derived_id,
        ) && end_known(u, x.base_name, x.base_id)
}

/// A filter keeps what is outside of the names that it concerns.
proof fn lemma_filter_within<T>(s: Seq<T>, p: spec_fn(T) -> bool, q: spec_fn(T) -> bool)
    requires
        forall|x: T| #[trigger] s.contains(x) && q(x) ==> p(x),
    ensures
        s.filter(p).filter(q) == s.filter(q),
    decreases s.len(),
{
    reveal(Seq::filter);
    if s.len() > 0 {
        let short = s.drop_last();
        assert(s =~= short.push(s.last()));
        text::lemma_push_contains(short, s.last());
        assert forall|x: T| #[trigger] short.contains(x) && q(x) implies p(x) by {
            assert(s.contains(x));
        }
        lemma_filter_within(short, p, q);
        assert(s.contains(s.last()));
        if p(s.last()) {
            assert(short.filter(p).push(s.last()).drop_last() =~= short.filter(p));
        }
    }
}

/// What is added outside of a filter does not show in it.
proof fn lemma_filter_more<T>(a: Seq<T>, b: Seq<T>, q: spec_fn(T) -> bool)
    requires
        forall|i: int| 0 <= i < b.len() ==> !q(#[trigger] b[i]),
    ensures
        (a + b).filter(q) == a.filter(q),
    decreases b.len(),
{
    reveal(Seq::filter);
    if b.len() > 0 {
        let short = b.drop_last();
        assert forall|i: int| 0 <= i < short.len() implies !q(#[trigger] short[i]) by {
            assert(short[i] == b[i]);
        }
        lemma_filter_more(a, short, q);
        assert((a + b).drop_last() =~= a + short);
        assert((a + b).last() == b[b.len() - 1]);
    } else {
        assert(a + b =~= a);
    }
}

/// A name that neither the file taken out nor the one put in goes by stands for what it stood
/// for.
proof fn lemma_same_resolution(
    before: Seq<DefinitionRowView>,
    id: i64,
    more: Seq<DefinitionRowView>,
    name: Seq<char>,
)
    requires
        before.len() <= usize::MAX,
        before.filter(incremental::definition_elsewhere(id)).len() + more.len() <= usize::MAX,
        !incremental::defines_name(before, id, name),
        forall|i: int|
            0 <= i < more.len() ==> (#[trigger] more[i]).name != name && more[i].qualified_name
                != name,
    ensures
        incremental::row_resolution(
            before.filter(incremental::definition_elsewhere(id)) + more,
            name,
        ) == incremental::row_resolution(before, name),
        incremental::row_link(before.filter(incremental::definition_elsewhere(id)) + more, name)
            == incremental::row_link(before, name),
{
    let keep = incremental::definition_elsewhere(id);
    let after = before.filter(keep) + more;
    assert forall|x: DefinitionRowView| #[trigger]
        before.contains(x) && (x.name == name || x.qualified_name == name) implies keep(x) by {
        let i = choose|i: int| 0 <= i < before.len() && before[i] == x;
        assert(before[i].file_id != Some(id));
    }
    lemma_filter_within(before, keep, qualified_as(name));
    lemma_filter_within(before, keep, named_as(name));
    lemma_filter_more(before.filter(keep), more, qualified_as(name));
    lemma_filter_more(before.filter(keep), more, named_as(name));
    lemma_resolution(before, name);
    lemma_resolution(after, name);
}

/// What one step does to the definitions: those of a file leave, others come.
pub open spec fn stepped(
    u: UpdateView,
    v: UpdateView,
    id: i64,
    more: Seq<DefinitionRowView>,
    old_names: Set<Seq<char>>,
    new_names: Set<Seq<char>>,
) -> bool {
    let a = u.changes;
    let b = v.changes;
    &&& v.tables.definitions == u.tables.definitions.filter(incremental::definition_elsewhere(id))
        + more
    &&& old_names == incremental::names_of_file(u.tables.definitions, id)
    &&& forall|i: int|
        0 <= i < more.len() ==> new_names.contains((#[trigger] more[i]).name) && new_names.contains(
            more[i].qualified_name,
        )
    &&& b.propagate == a.propagate.union(old_names).union(new_names)
}

/// A link that is right is so after a step, or is to be made anew.
proof fn lemma_end_step(
    u: UpdateView,
    v: UpdateView,
    id: i64,
    more: Seq<DefinitionRowView>,
    old_names: Set<Seq<char>>,
    new_names: Set<Seq<char>>,
    name: Seq<char>,
    link: Option<i64>,
)
    requires
        stepped(u, v, id, more, old_names, new_names),
        u.tables.definitions.len() <= usize::MAX,
        v.tables.definitions.len() <= usize::MAX,
    ensures
        ref_known(u, name, link) ==> ref_known(v, name, link),
        end_known(u, name, link) ==> end_known(v, name, link),
{
    if !old_names.contains(name) && !new_names.contains(name) {
        lemma_same_resolution(u.tables.definitions, id, more, name);
    }
}

/// What is known of the links stays known through a step.
proof fn lemma_links_step(
    u: UpdateView,
    v: UpdateView,
    id: i64,
    more: Seq<DefinitionRowView>,
    old_names: Set<Seq<char>>,
    new_names: Set<Seq<char>>,
)
    requires
        stepped(u, v, id, more, old_names, new_names),
        u.tables.definitions.len() <= usize::MAX,
        v.tables.definitions.len() <= usize::MAX,
        links_known(u),
        forall|x: Option<i64>| #[trigger]
            incremental::is_written(u.changes, x) ==> incremental::is_written(v.changes, x),
        forall|x: RefRowView| #[trigger]
            v.tables.refs.contains(x) ==> u.tables.refs.contains(x) || incremental::is_written(
                v.changes,
                x.file_id,
            ),
        forall|x: CallRowView| #[trigger]
            v.tables.calls.contains(x) ==> u.tables.calls.contains(x) || incremental::is_written(
                v.changes,
                x.file_id,
            ),
        forall|x: InheritRowView| #[trigger]
            v.tables.inherits.contains(x) ==> u.tables.inherits.contains(x)
                || incremental::is_written(v.changes, x.file_id),
    ensures
        links_known(v),
{
    assert forall|name: Seq<char>, link: Option<i64>| #[trigger]
        ref_known(u, name, link) implies ref_known(v, name, link) by {
        lemma_end_step(u, v, id, more, old_names, new_names, name, link);
    }
    assert forall|name: Seq<char>, link: Option<i64>| #[trigger]
        end_known(u, name, link) implies end_known(v, name, link) by {
        lemma_end_step(u, v, id, more, old_names, new_names, name, link);
    }
    assert forall|x: RefRowView| #[trigger]
        v.tables.refs.contains(x) && !incremental::is_written(
            v.changes,
            x.file_id,
        ) implies ref_known(v, x.name, x.def_id) by {
        assert(ref_known(u, x.name, x.def_id));
    }
    assert forall|x: CallRowView| #[trigger]
        v.tables.calls.contains(x) && !incremental::is_written(
            v.changes,
            x.file_id,
        ) implies end_known(v, x.caller_name, x.caller_id) && end_known(
        v,
        x.callee_name,
        x.callee_id,
    ) by {
        assert(end_known(u, x.caller_name, x.caller_id));
        assert(end_known(u, x.callee_name, x.callee_id));
    }
    assert forall|x: InheritRowView| #[trigger]
        v.tables.inherits.contains(x) && !incremental::is_written(
            v.changes,
            x.file_id,
        ) implies end_known(v, x.derived_name, x.derived_id) && end_known(
        v,
        x.base_name,
        x.base_id,
    ) by {
        assert(end_known(u, x.derived_name, x.derived_id));
        assert(end_known(u, x.base_name, x.base_id));
    }
}

/// Taking out a file keeps what is known of the links.
proof fn lemma_removed(u: UpdateView, path: Seq<char>)
    requires
        incremental_laws::underway(u),
        u.tables.definitions.len() <= usize::MAX,
        links_known(u),
    ensures
        links_known(incremental::removed(u, path)),
{
    let t = u.tables;
    if let Some(k) = incremental::row_of(t.files, path) {
        let id = t.files[k].id;
        let v = incremental::removed(u, path);
        let names = incremental::names_of_file(t.definitions, id);
        let none = Set::<Seq<char>>::empty();
        let no_rows = Seq::<DefinitionRowView>::empty();
        let keep = incremental::definition_elsewhere(id);
        incremental_laws::lemma_filter(t.definitions, keep);
        incremental_laws::lemma_filter(t.refs, incremental::ref_elsewhere(id));
        incremental_laws::lemma_filter(t.calls, incremental::call_elsewhere(id));
        incremental_laws::lemma_filter(
            t.inherits,
            incremental::inherit_elsewhere(t.definitions, id),
        );
        assert(v.tables.definitions =~= t.definitions.filter(keep) + no_rows);
        assert(v.changes.propagate =~= u.changes.propagate.union(names).union(none));
        lemma_links_step(u, v, id, no_rows, names, none);
    }
}

/// Replacing a file keeps what is known of the links.
#[verifier::spinoff_prover]
proof fn lemma_replaced(u: UpdateView, f: FileUpdateView)
    requires
        incremental_laws::underway(u),
        u.tables.files.len() <= usize::MAX,
        u.tables.definitions.len() + f.symbols.definitions.len() <= usize::MAX,
        incremental::replace_fits(u.tables, f.symbols),
        links_known(u),
    ensures
        links_known(incremental::replaced(u, f)),
{
    let t = u.tables;
    let path = f.symbols.file;
    let number = incremental::stored_number(t.files, path);
    let stored = incremental::row_of(t.files, path) is Some;
    let v = incremental::replaced(u, f);
    let keep = incremental::definition_elsewhere(number);
    let emptied = if stored {
        incremental::cleared(t, number)
    } else {
        t
    };
    incremental_laws::lemma_filter(t.definitions, keep);
    incremental_laws::lemma_upserted(t.files, f);
    if !stored {
        assert forall|i: int| 0 <= i < t.definitions.len() implies keep(
            #[trigger] t.definitions[i],
        ) by {
            assert(t.definitions.contains(t.definitions[i]));
            assert(incremental_laws::in_files(t.files, t.definitions[i].file_id));
        }
        contents_laws::lemma_filter_all(t.definitions, keep);
        assert forall|n: Seq<char>| !incremental::defines_name(t.definitions, number, n) by {
            if incremental::defines_name(t.definitions, number, n) {
                let i = choose|i: int|
                    0 <= i < t.definitions.len() && (#[trigger] t.definitions[i]).file_id == Some(
                        number,
                    ) && (t.definitions[i].name == n || t.definitions[i].qualified_name == n);
                assert(keep(t.definitions[i]));
            }
        }
        assert(incremental::names_of_file(t.definitions, number) =~= Set::empty());
    }
    assert(emptied.definitions == t.definitions.filter(keep));
    let old_names = incremental::names_of_file(t.definitions, number);
    let new_names = incremental::names_defined(f.symbols);
    let n = emptied.definitions.len() as int;
    let more = v.tables.definitions.skip(n);
    assert(v.tables.definitions =~= emptied.definitions + more);
    assert forall|i: int| 0 <= i < more.len() implies new_names.contains((#[trigger] more[i]).name)
        && new_names.contains(more[i].qualified_name) by {
        let d = f.symbols.definitions[i];
        assert(more[i].name == d.name && more[i].qualified_name == d.qualified_name);
        assert(incremental::file_defines(f.symbols, d.name));
        assert(incremental::file_defines(f.symbols, d.qualified_name));
    }
    assert(v.changes.propagate =~= u.changes.propagate.union(old_names).union(new_names));
    assert(stepped(u, v, number, more, old_names, new_names));
    lemma_new_rows(u, f, emptied);
    lemma_links_step(u, v, number, more, old_names, new_names);
}

/// The rows of a replaced file stand in a written file; all others were there before.
proof fn lemma_new_rows(u: UpdateView, f: FileUpdateView, emptied: TablesView)
    requires
        emptied == if incremental::row_of(u.tables.files, f.symbols.file) is Some {
            incremental::cleared(
                u.tables,
                incremental::stored_number(u.tables.files, f.symbols.file),
            )
        } else {
            u.tables
        },
    ensures
        ({
            let v = incremental::replaced(u, f);
            &&& forall|x: RefRowView| #[trigger]
                v.tables.refs.contains(x) ==> u.tables.refs.contains(x) || incremental::is_written(
                    v.changes,
                    x.file_id,
                )
            &&& forall|x: CallRowView| #[trigger]
                v.tables.calls.contains(x) ==> u.tables.calls.contains(x)
                    || incremental::is_written(v.changes, x.file_id)
            &&& forall|x: InheritRowView| #[trigger]
                v.tables.inherits.contains(x) ==> u.tables.inherits.contains(x)
                    || incremental::is_written(v.changes, x.file_id)
        }),
{
    let t = u.tables;
    let number = incremental::stored_number(t.files, f.symbols.file);
    let v = incremental::replaced(u, f);
    incremental_laws::lemma_filter(t.refs, incremental::ref_elsewhere(number));
    incremental_laws::lemma_filter(t.calls, incremental::call_elsewhere(number));
    incremental_laws::lemma_filter(
        t.inherits,
        incremental::inherit_elsewhere(t.definitions, number),
    );
    assert(v.changes.files.contains(number));
    assert forall|x: RefRowView| #[trigger] v.tables.refs.contains(x) implies t.refs.contains(x)
        || incremental::is_written(v.changes, x.file_id) by {
        let i = choose|i: int| 0 <= i < v.tables.refs.len() && v.tables.refs[i] == x;
        if i < emptied.refs.len() {
            assert(emptied.refs[i] == x);
            assert(emptied.refs.contains(x));
        } else {
            assert(x.file_id == Some(number));
        }
    }
    assert forall|x: CallRowView| #[trigger] v.tables.calls.contains(x) implies t.calls.contains(x)
        || incremental::is_written(v.changes, x.file_id) by {
        let i = choose|i: int| 0 <= i < v.tables.calls.len() && v.tables.calls[i] == x;
        if i < emptied.calls.len() {
            assert(emptied.calls[i] == x);
            assert(emptied.calls.contains(x));
        } else {
            assert(x.file_id == Some(number));
        }
    }
    assert forall|x: InheritRowView| #[trigger] v.tables.inherits.contains(x) implies
        t.inherits.contains(x) || incremental::is_written(v.changes, x.file_id) by {
        let i = choose|i: int| 0 <= i < v.tables.inherits.len() && v.tables.inherits[i] == x;
        if i < emptied.inherits.len() {
            assert(emptied.inherits[i] == x);
            assert(emptied.inherits.contains(x));
        } else {
            assert(x.file_id == Some(number));
        }
    }
}

/// Taking out files keeps what is known of the links.
proof fn lemma_all_removed(u: UpdateView, gone: Seq<Seq<char>>)
    requires
        incremental_laws::underway(u),
        u.tables.files.len() <= usize::MAX,
        u.tables.definitions.len() <= usize::MAX,
        links_known(u),
    ensures
        links_known(incremental::all_removed(u, gone)),
    decreases gone.len(),
{
    if gone.len() > 0 {
        let short = gone.drop_last();
        lemma_all_removed(u, short);
        incremental_laws::lemma_all_removed(u, short);
        lemma_removed(incremental::all_removed(u, short), gone.last());
    }
}

/// Replacing the first of some files keeps what is known of the links.
proof fn lemma_all_replaced(
    u: UpdateView,
    fs: Seq<FileUpdateView>,
    n: int,
    f: int,
    d: int,
    r: int,
    c: int,
    i: int,
)
    requires
        incremental_laws::underway(u),
        links_known(u),
        0 <= n <= fs.len(),
        u.tables.files.len() + fs.len() <= usize::MAX,
        u.tables.definitions.len() + incremental::total_definitions(fs) <= usize::MAX,
        incremental::within(u.tables, f, d, r, c, i),
        f + fs.len() < i64::MAX,
        d + incremental::total_definitions(fs) < i64::MAX,
        r + incremental::total_references(fs) < i64::MAX,
        c + incremental::total_calls(fs) < i64::MAX,
        i + incremental::total_inherits(fs) < i64::MAX,
    ensures
        links_known(incremental::all_replaced(u, fs.take(n))),
    decreases n,
{
    if n == 0 {
        assert(fs.take(0) =~= Seq::empty());
    } else {
        lemma_all_replaced(u, fs, n - 1, f, d, r, c, i);
        incremental_laws::lemma_all_replaced(u, fs, n - 1, f, d, r, c, i);
        assert(fs.take(n).drop_last() =~= fs.take(n - 1));
        assert(fs.take(n).last() == fs[n - 1]);
        incremental::lemma_totals(fs, n - 1);
        lemma_replaced(incremental::all_replaced(u, fs.take(n - 1)), fs[n - 1]);
    }
}

/// After an update of linked tables, whichever files it replaces and takes out, every row of
/// every file is linked to what its names stand for now: references to what they resolve to, calls
/// and inheritance edges to what their ends stand for.
pub proof fn law_update_links_rightly(
    t: TablesView,
    updates: Seq<FileUpdateView>,
    checksums: Seq<ChecksumUpdateView>,
    gone: Seq<Seq<char>>,
)
    requires
        incremental_laws::sound(t),
        linked(t),
        incremental::update_fits(t, updates),
        incremental_laws::holdable(t, updates),
    ensures
        linked(incremental::updated(t, updates, checksums, gone)),
{
    let start = UpdateView {
        tables: TablesView { files: incremental::all_checksums(t.files, checksums), ..t },
        changes: incremental::no_changes(),
    };
    incremental_laws::lemma_checksums(t.files, checksums);
    incremental_laws::lemma_same_apart(t.files, start.tables.files);
    assert(incremental_laws::underway(start));
    assert forall|name: Seq<char>, id: Option<i64>| #[trigger]
        is_right(t.definitions, name, id) implies ref_known(start, name, id) by {}
    assert forall|name: Seq<char>, id: Option<i64>| #[trigger]
        is_linked(t.definitions, name, id) implies end_known(start, name, id) by {}
    assert(links_known(start));
    lemma_all_removed(start, gone);
    incremental_laws::lemma_all_removed(start, gone);
    let middle = incremental::all_removed(start, gone);
    assert(updates.take(updates.len() as int) =~= updates);
    lemma_all_replaced(
        middle,
        updates,
        updates.len() as int,
        incremental::top(incremental::file_ids(t.files)),
        incremental::top(incremental::definition_ids(t.definitions)),
        incremental::top(incremental::ref_ids(t.refs)),
        incremental::top(incremental::call_ids(t.calls)),
        incremental::top(incremental::inherit_ids(t.inherits)),
    );
    let u = incremental::changed(t, updates, checksums, gone);
    let r = incremental::updated(t, updates, checksums, gone);
    assert forall|x: RefRowView| #[trigger] r.refs.contains(x) implies is_right(
        r.definitions,
        x.name,
        x.def_id,
    ) by {
        let k = choose|k: int| 0 <= k < r.refs.len() && r.refs[k] == x;
        let y = u.tables.refs[k];
        assert(u.tables.refs.contains(y));
        assert(x == incremental::relinked_ref(u.tables.definitions, u.changes, y));
        if !incremental::is_written(u.changes, y.file_id) {
            assert(ref_known(u, y.name, y.def_id));
        }
    }
    assert forall|x: CallRowView| #[trigger] r.calls.contains(x) implies is_linked(
        r.definitions,
        x.caller_name,
        x.caller_id,
    ) && is_linked(r.definitions, x.callee_name, x.callee_id) by {
        let k = choose|k: int| 0 <= k < r.calls.len() && r.calls[k] == x;
        let y = u.tables.calls[k];
        assert(u.tables.calls.contains(y));
        assert(x == incremental::relinked_call(u.tables.definitions, u.changes, y));
        if !incremental::is_written(u.changes, y.file_id) {
            assert(end_known(u, y.caller_name, y.caller_id));
            assert(end_known(u, y.callee_name, y.callee_id));
        }
    }
    assert forall|x: InheritRowView| #[trigger] r.inherits.contains(x) implies is_linked(
        r.definitions,
        x.derived_name,
        x.derived_id,
    ) && is_linked(r.definitions, x.base_name, x.base_id) by {
        let k = choose|k: int| 0 <= k < r.inherits.len() && r.inherits[k] == x;
        let y = u.tables.inherits[k];
        assert(u.tables.inherits.contains(y));
        assert(x == incremental::relinked_inherit(u.tables.definitions, u.changes, y));
        if !incremental::is_written(u.changes, y.file_id) {
            assert(end_known(u, y.derived_name, y.derived_id));
            assert(end_known(u, y.base_name, y.base_id));
        }
    }
}

/// In saved tables a name stands for the row of the definition that it resolves to.
proof fn lemma_saved_resolution(ix: IndexView, contents: Seq<Option<Seq<char>>>, name: Seq<char>)
    requires
        ix.definitions.len() <= usize::MAX,
        ix.definitions.len() < i64::MAX,
    ensures
        save::number_of(ix.definitions, name) == incremental::row_resolution(
            save::saved(ix, contents).definitions,
            name,
        ),
{
    let rows = save::saved(ix, contents).definitions;
    assert(incremental::row_qualified_names(rows) =~= index::qualified_names(ix.definitions));
    assert(incremental::row_names(rows) =~= index::names(ix.definitions));
    let exact = index::spots(index::qualified_names(ix.definitions), name);
    let simple = index::spots(index::names(ix.definitions), name);
    index::lemma_spots(index::qualified_names(ix.definitions), name);
    index::lemma_spots(index::names(ix.definitions), name);
    if exact.len() == 1 {
        assert(exact[0] < rows.len());
    } else if simple.len() == 1 {
        assert(simple[0] < rows.len());
    }
}

/// The largest of rising numbers above zero is the last.
proof fn lemma_top_rising(ids: Seq<i64>)
    requires
        ids.len() > 0,
        ids[0] > 0,
        forall|i: int, j: int| 0 <= i < j < ids.len() ==> (#[trigger] ids[i]) < (#[trigger] ids[j]),
    ensures
        incremental::top(ids) == ids.last(),
    decreases ids.len(),
{
    let short = ids.drop_last();
    if short.len() > 0 {
        assert(short[0] == ids[0]);
        assert forall|i: int, j: int| 0 <= i < j < short.len() implies (#[trigger] short[i]) < (
        #[trigger] short[j]) by {
            assert(ids[i] < ids[j]);
        }
        lemma_top_rising(short);
        assert(ids[ids.len() - 2] < ids[ids.len() - 1]);
        assert(short.last() == ids[ids.len() - 2]);
    } else {
        assert(incremental::top(short) == 0);
        assert(ids.last() == ids[0]);
    }
}

/// In saved tables an end is linked to the row of the definition that its name stands for.
proof fn lemma_saved_link(ix: IndexView, contents: Seq<Option<Seq<char>>>, name: Seq<char>)
    requires
        ix.definitions.len() <= usize::MAX,
        ix.definitions.len() < i64::MAX,
    ensures
        save::link_of(ix.definitions, name) == incremental::row_link(
            save::saved(ix, contents).definitions,
            name,
        ),
{
    let rows = save::saved(ix, contents).definitions;
    assert(incremental::row_qualified_names(rows) =~= index::qualified_names(ix.definitions));
    assert(incremental::row_names(rows) =~= index::names(ix.definitions));
    let exact = index::spots(index::qualified_names(ix.definitions), name);
    let simple = index::spots(index::names(ix.definitions), name);
    index::lemma_spots(index::qualified_names(ix.definitions), name);
    index::lemma_spots(index::names(ix.definitions), name);
    if exact.len() > 0 {
        let ids = incremental::definition_ids(index::picked(rows, exact));
        assert forall|i: int| 0 <= i < ids.len() implies (#[trigger] ids[i]) == exact[i] + 1 by {
            assert(exact[i] < rows.len());
        }
        assert forall|i: int, j: int| 0 <= i < j < ids.len() implies (#[trigger] ids[i]) < (
        #[trigger] ids[j]) by {
            assert(exact[i] < exact[j]);
        }
        lemma_top_rising(ids);
        assert(ids.last() == exact.last() + 1);
    } else if simple.len() == 1 {
        assert(simple[0] < rows.len());
    }
}

/// The tables that store an index whose references are resolved are linked.
pub proof fn law_saved_tables_are_linked(ix: IndexView, contents: Seq<Option<Seq<char>>>)
    requires
        save::fits(ix),
        ix.definitions.len() <= usize::MAX,
        forall|k: int|
            0 <= k < ix.references.len() ==> (#[trigger] ix.references[k]).def_id
                == index::resolution(ix.definitions, ix.references[k].name),
    ensures
        linked(save::saved(ix, contents)),
{
    let t = save::saved(ix, contents);
    assert forall|name: Seq<char>| #[trigger] save::number_of(ix.definitions, name)
        == incremental::row_resolution(t.definitions, name) by {
        lemma_saved_resolution(ix, contents, name);
    }
    assert forall|name: Seq<char>| #[trigger] save::link_of(ix.definitions, name)
        == incremental::row_link(t.definitions, name) by {
        lemma_saved_link(ix, contents, name);
    }
    assert forall|x: RefRowView| #[trigger] t.refs.contains(x) implies is_right(
        t.definitions,
        x.name,
        x.def_id,
    ) by {
        let k = choose|k: int| 0 <= k < t.refs.len() && t.refs[k] == x;
        let r: ReferenceView = ix.references[k];
        index::lemma_resolution(ix.definitions, r.name);
        assert(x.def_id == save::number_of(ix.definitions, r.name));
    }
    assert forall|x: CallRowView| #[trigger] t.calls.contains(x) implies is_linked(
        t.definitions,
        x.caller_name,
        x.caller_id,
    ) && is_linked(t.definitions, x.callee_name, x.callee_id) by {
        let k = choose|k: int| 0 <= k < t.calls.len() && t.calls[k] == x;
        assert(x.caller_id == save::link_of(ix.definitions, ix.calls[k].caller_name));
        assert(x.callee_id == save::link_of(ix.definitions, ix.calls[k].callee_name));
    }
    assert forall|x: InheritRowView| #[trigger] t.inherits.contains(x) implies is_linked(
        t.definitions,
        x.derived_name,
        x.derived_id,
    ) && is_linked(t.definitions, x.base_name, x.base_id) by {
        let k = choose|k: int| 0 <= k < t.inherits.len() && t.inherits[k] == x;
        assert(x.derived_id == save::link_of(ix.definitions, ix.inherits[k].derived_name));
        assert(x.base_id == save::link_of(ix.definitions, ix.inherits[k].base_name));
    }
}

/// Whether a position is the only one with a key.
pub open spec fn is_only(keys: Seq<Seq<char>>, key: Seq<char>, j: int) -> bool {
    0 <= j < keys.len() && keys[j] == key && forall|k: int|
        0 <= k < keys.len() && #[trigger] keys[k] == key ==> k == j
}

/// Whether a position is the last one with a key.
pub open spec fn is_last(keys: Seq<Seq<char>>, key: Seq<char>, j: int) -> bool {
    0 <= j < keys.len() && keys[j] == key && forall|k: int|
        0 <= k < keys.len() && #[trigger] keys[k] == key ==> k <= j
}

/// The positions of a key tell whether it occurs, whether it occurs once, and where it does last.
proof fn lemma_occurs(keys: Seq<Seq<char>>, key: Seq<char>, j: int)
    requires
        keys.len() <= usize::MAX,
    ensures
        index::spots(keys, key).len() == 0 <==> !keys.contains(key),
        is_only(keys, key, j) <==> index::spots(keys, key).len() == 1 && index::spots(keys, key)[0]
            == j,
        is_last(keys, key, j) <==> index::spots(keys, key).len() > 0 && index::spots(
            keys,
            key,
        ).last() == j,
{
    let at = index::spots(keys, key);
    index::lemma_spots(keys, key);
    if at.len() > 0 {
        assert(keys[at[0] as int] == key);
        assert(keys[at[at.len() - 1] as int] == key);
        assert(at.last() == at[at.len() - 1]);
    }
    if keys.contains(key) {
        let k = choose|k: int| 0 <= k < keys.len() && keys[k] == key;
        assert(at.contains(k as usize));
    }
    assert forall|k: int| 0 <= k < keys.len() && #[trigger] keys[k] == key implies exists|m: int|
        0 <= m < at.len() && at[m] == k by {
        assert(at.contains(k as usize));
        let m = choose|m: int| 0 <= m < at.len() && at[m] == k as usize;
        assert(at[m] == k);
    }
    if is_only(keys, key, j) {
        assert(keys[j] == key);
        if at.len() > 1 {
            assert(keys[at[0] as int] == key && keys[at[1] as int] == key);
            assert(at[0] < at[1]);
        }
    }
    if at.len() > 0 && at.last() == j {
        assert forall|k: int| 0 <= k < keys.len() && #[trigger] keys[k] == key implies k <= j by {
            let m = choose|m: int| 0 <= m < at.len() && at[m] == k;
            if m < at.len() - 1 {
                assert(at[m] < at[at.len() - 1]);
            }
        }
        if at.len() == 1 {
            assert forall|k: int| 0 <= k < keys.len() && #[trigger] keys[k] == key implies k
                == j by {
                let m = choose|m: int| 0 <= m < at.len() && at[m] == k;
            }
        }
    }
    if is_last(keys, key, j) {
        let m = choose|m: int| 0 <= m < at.len() && at[m] == j;
        if m < at.len() - 1 {
            assert(at[m] < at[at.len() - 1]);
            assert(keys[at[at.len() - 1] as int] == key);
        }
    }
    if at.len() == 1 && at[0] == j {
        assert(at.last() == at[0]);
    }
}

/// An end of a call or of an inheritance edge is linked to the last definition that has its name as
/// its qualified name; where none has it so, to the only one with it as its simple name; and to
/// nothing where several have it.
pub proof fn law_ends_are_linked_to_what_they_name(
    definitions: Seq<DefinitionView>,
    name: Seq<char>,
    j: int,
)
    requires
        definitions.len() <= usize::MAX,
        0 <= j < definitions.len(),
    ensures
        index::linked_to(definitions, name) == Some(DefId(j as usize)) <==> {
            ||| is_last(index::qualified_names(definitions), name, j)
            ||| !index::qualified_names(definitions).contains(name) && is_only(
                index::names(definitions),
                name,
                j,
            )
        },
        index::names(definitions)[j] == definitions[j].name,
        index::qualified_names(definitions)[j] == definitions[j].qualified_name,
{
    lemma_occurs(index::qualified_names(definitions), name, j);
    lemma_occurs(index::names(definitions), name, j);
    if is_last(index::qualified_names(definitions), name, j) {
        assert(index::qualified_names(definitions).contains(name));
    }
}

/// A stored reference resolves to the only definition that has its name as its qualified name; where
/// none has it so, to the only one with it as its simple name; and to nothing where several have
/// it.
pub proof fn law_stored_references_resolve_unambiguously(
    definitions: Seq<DefinitionRowView>,
    name: Seq<char>,
    j: int,
)
    requires
        definitions.len() <= usize::MAX,
        0 <= j < definitions.len(),
    ensures
        is_only(incremental::row_qualified_names(definitions), name, j)
            ==> incremental::row_resolution(definitions, name) == Some(definitions[j].id),
        !incremental::row_qualified_names(definitions).contains(name) && is_only(
            incremental::row_names(definitions),
            name,
            j,
        ) ==> incremental::row_resolution(definitions, name) == Some(definitions[j].id),
        (forall|i: int| !is_only(incremental::row_qualified_names(definitions), name, i))
            && (incremental::row_qualified_names(definitions).contains(name) || forall|i: int|
            !is_only(incremental::row_names(definitions), name, i)) ==> incremental::row_resolution(
            definitions,
            name,
        ) is None,
        incremental::row_names(definitions)[j] == definitions[j].name,
        incremental::row_qualified_names(definitions)[j] == definitions[j].qualified_name,
{
    let exact = incremental::row_qualified_names(definitions);
    let simple = incremental::row_names(definitions);
    lemma_occurs(exact, name, j);
    lemma_occurs(simple, name, j);
    if index::spots(exact, name).len() == 1 {
        lemma_occurs(exact, name, index::spots(exact, name)[0] as int);
    }
    if index::spots(simple, name).len() == 1 {
        lemma_occurs(simple, name, index::spots(simple, name)[0] as int);
    }
}

/// The largest of some numbers is one of them and no less than any other.
proof fn lemma_largest(ids: Seq<i64>, k: int)
    requires
        0 <= k < ids.len(),
        forall|i: int| 0 <= i < ids.len() ==> #[trigger] ids[i] > 0,
    ensures
        ids[k] <= incremental::top(ids) <= i64::MAX,
        exists|i: int| 0 <= i < ids.len() && #[trigger] ids[i] == incremental::top(ids),
    decreases ids.len(),
{
    let short = ids.drop_last();
    assert(ids[ids.len() - 1] > 0);
    assert forall|i: int| 0 <= i < short.len() implies #[trigger] short[i] > 0 by {
        assert(short[i] == ids[i]);
    }
    if short.len() > 0 {
        let m = if k < short.len() {
            k
        } else {
            0
        };
        lemma_largest(short, m);
        let i = choose|i: int| 0 <= i < short.len() && #[trigger] short[i] == incremental::top(short);
        assert(ids[i] == short[i]);
        assert(short[m] == ids[m]);
    } else {
        assert(incremental::top(short) == 0);
    }
    assert(ids.last() == ids[ids.len() - 1]);
}

/// A stored end of a call or of an inheritance edge is linked to the latest definition that has its
/// name as its qualified name; where none has it so, to the only one with it as its simple name;
/// and to nothing where several have it.
pub proof fn law_stored_ends_are_linked_to_what_they_name(
    definitions: Seq<DefinitionRowView>,
    name: Seq<char>,
    j: int,
)
    requires
        definitions.len() <= usize::MAX,
        0 <= j < definitions.len(),
        forall|i: int| 0 <= i < definitions.len() ==> (#[trigger] definitions[i]).id > 0,
    ensures
        definitions[j].qualified_name == name ==> (incremental::row_link(definitions, name) matches Some(
            id,
        ) && definitions[j].id <= id && exists|i: int|
            0 <= i < definitions.len() && (#[trigger] definitions[i]).qualified_name == name
                && definitions[i].id == id),
        !incremental::row_qualified_names(definitions).contains(name) && is_only(
            incremental::row_names(definitions),
            name,
            j,
        ) ==> incremental::row_link(definitions, name) == Some(definitions[j].id),
        !incremental::row_qualified_names(definitions).contains(name) && (forall|i: int|
            !is_only(incremental::row_names(definitions), name, i)) ==> incremental::row_link(
            definitions,
            name,
        ) is None,
{
    let exact = incremental::row_qualified_names(definitions);
    let simple = incremental::row_names(definitions);
    let at = index::spots(exact, name);
    lemma_occurs(exact, name, j);
    lemma_occurs(simple, name, j);
    index::lemma_spots(exact, name);
    if index::spots(simple, name).len() == 1 {
        lemma_occurs(simple, name, index::spots(simple, name)[0] as int);
    }
    if definitions[j].qualified_name == name {
        assert(exact[j] == name);
        assert(at.contains(j as usize));
        let m = choose|m: int| 0 <= m < at.len() && at[m] == j as usize;
        let ids = incremental::definition_ids(index::picked(definitions, at));
        assert forall|i: int| 0 <= i < ids.len() implies #[trigger] ids[i] > 0 by {
            assert(exact[at[i] as int] == name);
            assert(ids[i] == definitions[at[i] as int].id);
        }
        assert(ids[m] == definitions[j].id);
        lemma_largest(ids, m);
        let i = choose|i: int| 0 <= i < ids.len() && #[trigger] ids[i] == incremental::top(ids);
        assert(exact[at[i] as int] == name);
        assert(definitions[at[i] as int].qualified_name == name);
        assert(definitions[at[i] as int].id == ids[i]);
    }
}

} // verus!
