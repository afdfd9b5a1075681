//! What is kept when an index is saved and loaded again.
use crate::checksum;
use crate::index::IndexView;
use crate::index;
use crate::load;
use crate::save;
use crate::types::{
    CallEdgeView, DefinitionView, IndexedFileView, InheritEdgeView, LocationView, ReferenceView,
};
use crate::types;
use vstd::prelude::*;

verus! {

/// Whether every symbol stands in one of the files, and every reference that is resolved points
/// to one of the definitions.
pub open spec fn closed_index(ix: IndexView) -> bool {
    &&& forall|i: int|
        0 <= i < ix.definitions.len() ==> save::paths(ix.files).contains(
            (#[trigger] ix.definitions[i]).location.file,
        )
    &&& forall|i: int|
        0 <= i < ix.references.len() ==> save::paths(ix.files).contains(
            (#[trigger] ix.references[i]).location.file,
        )
    &&& forall|i: int|
        0 <= i < ix.calls.len() ==> save::paths(ix.files).contains((#[trigger] ix.calls[i]).location.file)
    &&& forall|i: int|
        0 <= i < ix.inherits.len() ==> save::paths(ix.files).contains(
            (#[trigger] ix.inherits[i]).location.file,
        )
    &&& forall|i: int|
        0 <= i < ix.references.len() ==> ((#[trigger] ix.references[i]).def_id matches Some(id)
            ==> id.0 < ix.definitions.len())
}

/// A place of which only the start is stored.
pub open spec fn start_only(l: LocationView) -> LocationView {
    LocationView { end_line: 0, end_column: 0, ..l }
}

/// A place of which only the file is stored.
pub open spec fn file_only(l: LocationView) -> LocationView {
    LocationView { file: l.file, line: 0, column: 0, end_line: 0, end_column: 0 }
}

/// What an index is after it was saved and loaded: files have all their checksums, symbols have
/// their row numbers, and of references, calls and inheritance edges the places are shortened
/// to what is stored. All else is kept.
pub open spec fn kept(ix: IndexView, contents: Seq<Option<Seq<char>>>) -> IndexView {
    IndexView {
        files: Seq::new(
            ix.files.len(),
            |i: int|
                IndexedFileView {
                    checksum: save::first_of(ix.files[i].checksum, contents[i]),
                    symbols_checksum: save::first_of(
                        ix.files[i].symbols_checksum,
                        Some(checksum::symbols_checksum(save::file_part(ix, ix.files[i].path))),
                    ),
                    ..ix.files[i]
                },
        ),
        definitions: Seq::new(
            ix.definitions.len(),
            |i: int| DefinitionView { id: Some((i + 1) as i64), ..ix.definitions[i] },
        ),
        references: Seq::new(
            ix.references.len(),
            |i: int|
                ReferenceView {
                    id: Some((i + 1) as i64),
                    location: start_only(ix.references[i].location),
                    ..ix.references[i]
                },
        ),
        calls: Seq::new(
            ix.calls.len(),
            |i: int|
                CallEdgeView { location: start_only(ix.calls[i].location), ..ix.calls[i] },
        ),
        inherits: Seq::new(
            ix.inherits.len(),
            |i: int|
                InheritEdgeView { location: file_only(ix.inherits[i].location), ..ix.inherits[i] },
        ),
    }
}

/// A number read back from a signed column is the one that was stored.
proof fn lemma_stored_number(x: usize)
    ensures
        (x as i64) as usize == x,
{
    assert((x as i64) as usize == x) by (bit_vector);
}

/// Numbers that count from one stand where they count.
proof fn lemma_counted(ids: Seq<i64>, n: nat, k: int)
    requires
        ids.len() == n,
        n < i64::MAX,
        n <= usize::MAX,
        forall|i: int| 0 <= i < n ==> (#[trigger] ids[i]) == i + 1,
        0 <= k < n,
    ensures
        load::last_at(ids, (k + 1) as i64) == Some(k as usize),
{
    load::lemma_last_at(ids, (k + 1) as i64);
    assert(ids[k] == k + 1);
    assert(ids.contains((k + 1) as i64));
}

/// The file of a symbol is found again by its number.
proof fn lemma_path_kept(
    ix: IndexView,
    contents: Seq<Option<Seq<char>>>,
    path: Seq<char>,
)
    requires
        save::fits(ix),
        ix.files.len() <= usize::MAX,
        save::paths(ix.files).contains(path),
    ensures
        save::file_number(ix.files, path) is Some,
        load::path_of(save::saved(ix, contents).files, save::file_number(ix.files, path)) == path,
{
    let keys = save::paths(ix.files);
    let at = index::spots(keys, path);
    index::lemma_spots(keys, path);
    let j = choose|j: int| 0 <= j < keys.len() && keys[j] == path;
    assert(at.contains(j as usize));
    let k = at[at.len() - 1];
    assert(keys[k as int] == path);
    let rows = save::saved(ix, contents).files;
    lemma_counted(load::file_ids(rows), rows.len(), k as int);
    assert(rows[k as int].path == ix.files[k as int].path);
}

/// An index that was saved and loaded is the one that was saved, but for what the tables do not
/// store.
pub proof fn law_save_then_load(ix: IndexView, contents: Seq<Option<Seq<char>>>)
    requires
        save::fits(ix),
        ix.files.len() <= usize::MAX,
        ix.definitions.len() <= usize::MAX,
        closed_index(ix),
    ensures
        load::loaded(save::saved(ix, contents)) == kept(ix, contents),
{
    let t = save::saved(ix, contents);
    let got = load::loaded(t);
    let want = kept(ix, contents);
    assert(got.files =~= want.files);
    assert forall|i: int| 0 <= i < ix.definitions.len() implies got.definitions[i]
        == want.definitions[i] by {
        let d = ix.definitions[i];
        lemma_path_kept(ix, contents, d.location.file);
        types::lemma_kind_named(d.kind);
        types::lemma_visibility_named(d.visibility);
        lemma_stored_number(d.location.line);
        lemma_stored_number(d.location.column);
        lemma_stored_number(d.location.end_line);
        lemma_stored_number(d.location.end_column);
    }
    assert(got.definitions =~= want.definitions);
    assert forall|i: int| 0 <= i < ix.references.len() implies got.references[i]
        == want.references[i] by {
        let r = ix.references[i];
        lemma_path_kept(ix, contents, r.location.file);
        types::lemma_kind_named(r.kind);
        lemma_stored_number(r.location.line);
        lemma_stored_number(r.location.column);
        if let Some(id) = r.def_id {
            lemma_counted(load::definition_ids(t.definitions), t.definitions.len(), id.0 as int);
        }
    }
    assert(got.references =~= want.references);
    assert forall|i: int| 0 <= i < ix.calls.len() implies got.calls[i] == want.calls[i] by {
        let c = ix.calls[i];
        lemma_path_kept(ix, contents, c.location.file);
        lemma_stored_number(c.location.line);
        lemma_stored_number(c.location.column);
    }
    assert(got.calls =~= want.calls);
    assert forall|i: int| 0 <= i < ix.inherits.len() implies got.inherits[i] == want.inherits[i] by {
        let e = ix.inherits[i];
        lemma_path_kept(ix, contents, e.location.file);
        types::lemma_visibility_named(e.access);
    }
    assert(got.inherits =~= want.inherits);
}

/// Every name stands for the same definitions, by position, before an index is saved and after
/// it is loaded, and so resolves to and is linked to the same one.
pub proof fn law_loaded_names_mean_the_same(
    ix: IndexView,
    contents: Seq<Option<Seq<char>>>,
    name: Seq<char>,
)
    requires
        save::fits(ix),
        ix.files.len() <= usize::MAX,
        ix.definitions.len() <= usize::MAX,
        closed_index(ix),
    ensures
        index::meant(load::loaded(save::saved(ix, contents)).definitions, name) == index::meant(ix.definitions, name),
        index::resolution(load::loaded(save::saved(ix, contents)).definitions, name) == index::resolution(
            ix.definitions,
            name,
        ),
        index::linked_to(load::loaded(save::saved(ix, contents)).definitions, name) == index::linked_to(
            ix.definitions,
            name,
        ),
{
    law_save_then_load(ix, contents);
    lemma_same_names(ix, contents);
}

proof fn lemma_same_names(ix: IndexView, contents: Seq<Option<Seq<char>>>)
    ensures
        index::names(kept(ix, contents).definitions) == index::names(ix.definitions),
        index::qualified_names(kept(ix, contents).definitions) == index::qualified_names(ix.definitions),
{
    assert(index::names(kept(ix, contents).definitions) =~= index::names(ix.definitions));
    assert(index::qualified_names(kept(ix, contents).definitions) =~= index::qualified_names(ix.definitions));
}

/// Saving what was loaded stores the same rows again.
pub proof fn law_saving_again_changes_nothing(
    ix: IndexView,
    contents: Seq<Option<Seq<char>>>,
    later: Seq<Option<Seq<char>>>,
)
    requires
        save::fits(ix),
        ix.files.len() <= usize::MAX,
        ix.definitions.len() <= usize::MAX,
        closed_index(ix),
        forall|i: int|
            0 <= i < ix.files.len() ==> (#[trigger] ix.files[i]).checksum is Some || contents[i] is Some,
    ensures
        save::saved(load::loaded(save::saved(ix, contents)), later) == save::saved(ix, contents),
{
    law_save_then_load(ix, contents);
    lemma_same_names(ix, contents);
    let again = kept(ix, contents);
    assert(save::paths(again.files) =~= save::paths(ix.files));
    let got = save::saved(again, later);
    let want = save::saved(ix, contents);
    assert(got.files =~= want.files);
    assert(got.definitions =~= want.definitions);
    assert(got.refs =~= want.refs);
    assert(got.calls =~= want.calls);
    assert forall|i: int| 0 <= i < ix.inherits.len() implies got.inherits[i] == want.inherits[i] by {
        index::lemma_linked_to(ix.definitions, ix.inherits[i].derived_name);
    }
    assert(got.inherits =~= want.inherits);
}

} // verus!
