//! Bringing an index up to date settles: what was found is then stored.
use crate::checksum;
use crate::contents_laws::Contents;
use crate::contents_laws;
use crate::incremental::{ChecksumUpdateView, FileUpdateView, UpdateView};
use crate::incremental;
use crate::incremental_laws;
use crate::paths;
use crate::reindex::{FoundFileView, ParsedUpdateView};
use crate::reindex;
use crate::rows::{FileRowView, TablesView};
use vstd::prelude::*;

verus! {

/// The row of the file at a path.
pub open spec fn stored(files: Seq<FileRowView>, path: Seq<char>) -> Option<FileRowView> {
    match incremental::row_of(files, path) {
        Some(k) => Some(files[k]),
        None => None,
    }
}

/// Rows of files that are apart are found by their paths.
proof fn lemma_stored(files: Seq<FileRowView>, path: Seq<char>)
    requires
        incremental_laws::files_apart(files),
        files.len() <= usize::MAX,
    ensures
        stored(files, path) matches Some(f) ==> files.contains(f) && f.path == path,
        forall|f: FileRowView| #[trigger]
            files.contains(f) && f.path == path ==> stored(files, path) == Some(f),
{
    incremental_laws::lemma_row_of(files, path);
    assert forall|f: FileRowView| #[trigger] files.contains(f) && f.path == path implies stored(
        files,
        path,
    ) == Some(f) by {
        let i = choose|i: int| 0 <= i < files.len() && files[i] == f;
        incremental_laws::lemma_same_row(files, i);
    }
}

/// Writing checksums of files changes the rows of these files only.
proof fn lemma_checksums_stored(
    files: Seq<FileRowView>,
    us: Seq<ChecksumUpdateView>,
    path: Seq<char>,
    sum: Seq<char>,
)
    requires
        incremental_laws::files_apart(files),
        files.len() <= usize::MAX,
        forall|k: int| 0 <= k < us.len() && (#[trigger] us[k]).path == path ==> us[k].checksum
            == sum,
    ensures
        ({
            let after = incremental::all_checksums(files, us);
            &&& incremental_laws::files_apart(after)
            &&& after.len() == files.len()
            &&& !is_noted(us, path) ==> stored(after, path) == stored(files, path)
            &&& is_noted(us, path) && stored(files, path) is Some ==> (stored(after, path) matches Some(f) && f.checksum == Some(sum))
            &&& stored(files, path) is None ==> stored(after, path) is None
        }),
    decreases us.len(),
{
    incremental_laws::lemma_checksums(files, us);
    incremental_laws::lemma_same_apart(files, incremental::all_checksums(files, us));
    if us.len() > 0 {
        let short = us.drop_last();
        assert forall|k: int| 0 <= k < short.len() && (#[trigger] short[k]).path
            == path implies short[k].checksum == sum by {
            assert(us[k] == short[k]);
        }
        lemma_checksums_stored(files, short, path, sum);
        let before = incremental::all_checksums(files, short);
        let after = incremental::all_checksums(files, us);
        let u = us.last();
        assert(u == us[us.len() - 1]);
        lemma_stored(before, path);
        lemma_stored(after, path);
        incremental_laws::lemma_row_of(before, u.path);
        if let Some(k) = incremental::row_of(before, u.path) {
            if u.path == path {
                assert(after[k].path == path);
                assert(after.contains(after[k]));
            } else if let Some(f) = stored(before, path) {
                let j = choose|j: int| 0 <= j < before.len() && before[j] == f;
                assert(after[j] == f);
                assert(after.contains(f));
            } else if let Some(f) = stored(after, path) {
                let j = choose|j: int| 0 <= j < after.len() && after[j] == f;
                assert(before[j] == f);
                assert(before.contains(f));
            }
        }
        if is_noted(us, path) && u.path != path {
            let k = choose|k: int| 0 <= k < us.len() && (#[trigger] us[k]).path == path;
            assert(short[k].path == path);
        }
        if is_noted(short, path) {
            let k = choose|k: int| 0 <= k < short.len() && (#[trigger] short[k]).path == path;
            assert(us[k].path == path);
        }
    }
}

/// Taking out files leaves the rows of all other files.
proof fn lemma_removed_stored(u: UpdateView, paths: Seq<Seq<char>>, path: Seq<char>)
    requires
        incremental_laws::files_apart(u.tables.files),
        u.tables.files.len() <= usize::MAX,
    ensures
        ({
            let after = incremental::all_removed(u, paths).tables.files;
            &&& incremental_laws::files_apart(after)
            &&& after.len() <= u.tables.files.len()
            &&& paths.contains(path) ==> stored(after, path) is None
            &&& !paths.contains(path) ==> stored(after, path) == stored(u.tables.files, path)
        }),
    decreases paths.len(),
{
    if paths.len() > 0 {
        let short = paths.drop_last();
        lemma_removed_stored(u, short, path);
        let before = incremental::all_removed(u, short).tables.files;
        let after = incremental::all_removed(u, paths).tables.files;
        let gone = paths.last();
        assert(paths =~= short.push(gone));
        crate::text::lemma_push_contains(short, gone);
        incremental_laws::lemma_row_of(before, gone);
        lemma_stored(before, path);
        if let Some(k) = incremental::row_of(before, gone) {
            let id = before[k].id;
            let keep = incremental::file_elsewhere(id);
            incremental_laws::lemma_filter(before, keep);
            incremental_laws::lemma_filter_keys(before, keep, incremental_laws::file_id());
            incremental_laws::lemma_filter_keys(before, keep, incremental_laws::file_path());
            assert forall|i: int| 0 <= i < after.len() implies (#[trigger] after[i]).id > 0 by {
                assert(after.contains(after[i]));
                let j = choose|j: int| 0 <= j < before.len() && before[j] == after[i];
                assert(before[j].id > 0);
            }
            lemma_stored(after, path);
            if path != gone {
                if let Some(f) = stored(before, path) {
                    let j = choose|j: int| 0 <= j < before.len() && before[j] == f;
                    if j < k {
                        assert(incremental_laws::file_id()(before[j])
                            != incremental_laws::file_id()(before[k]));
                    } else {
                        assert(k < j);
                        assert(incremental_laws::file_id()(before[k])
                            != incremental_laws::file_id()(before[j]));
                    }
                    assert(after.contains(f));
                }
            } else if let Some(f) = stored(after, path) {
                assert(before.contains(f));
                lemma_stored(before, gone);
                assert(stored(before, gone) == Some(f));
            }
        }
    }
}

/// Replacing files writes the rows of these files only.
proof fn lemma_replaced_stored(
    u: UpdateView,
    fs: Seq<FileUpdateView>,
    path: Seq<char>,
    sum: Seq<char>,
    top: int,
)
    requires
        incremental_laws::files_apart(u.tables.files),
        u.tables.files.len() + fs.len() <= usize::MAX,
        incremental::top(incremental::file_ids(u.tables.files)) <= top,
        top + fs.len() < i64::MAX,
        forall|k: int|
            0 <= k < fs.len() && (#[trigger] fs[k]).symbols.file == path ==> fs[k].checksum == sum,
    ensures
        ({
            let after = incremental::all_replaced(u, fs).tables.files;
            &&& incremental_laws::files_apart(after)
            &&& after.len() <= u.tables.files.len() + fs.len()
            &&& incremental::top(incremental::file_ids(after)) <= top + fs.len()
            &&& !is_replaced(fs, path) ==> stored(after, path) == stored(u.tables.files, path)
            &&& is_replaced(fs, path) ==> (stored(after, path) matches Some(f) && f.checksum
                == Some(sum))
        }),
    decreases fs.len(),
{
    if fs.len() > 0 {
        let short = fs.drop_last();
        assert forall|k: int| 0 <= k < short.len() && (#[trigger] short[k]).symbols.file
            == path implies short[k].checksum == sum by {
            assert(fs[k] == short[k]);
        }
        lemma_replaced_stored(u, short, path, sum, top);
        let before = incremental::all_replaced(u, short).tables.files;
        let after = incremental::all_replaced(u, fs).tables.files;
        let f = fs.last();
        assert(f == fs[fs.len() - 1]);
        assert(after == incremental::upserted(
            before,
            f.symbols.file,
            f.symbols.language,
            f.checksum,
            f.symbols_checksum,
        ));
        incremental_laws::lemma_upserted(before, f);
        incremental::lemma_top_upserted(
            before,
            f.symbols.file,
            f.symbols.language,
            f.checksum,
            f.symbols_checksum,
        );
        incremental_laws::lemma_row_of(before, f.symbols.file);
        lemma_stored(before, path);
        lemma_stored(after, path);
        let at = match incremental::row_of(before, f.symbols.file) {
            Some(k) => k,
            None => before.len() as int,
        };
        if f.symbols.file == path {
            assert(after[at].path == path && after[at].checksum == Some(sum));
            assert(after.contains(after[at]));
        } else {
            if let Some(x) = stored(before, path) {
                let j = choose|j: int| 0 <= j < before.len() && before[j] == x;
                assert(after[j] == x);
                assert(after.contains(x));
            } else if let Some(x) = stored(after, path) {
                let j = choose|j: int| 0 <= j < after.len() && after[j] == x;
                assert(j != at);
                assert(before[j] == x);
                assert(before.contains(x));
            }
        }
        if is_replaced(fs, path) && f.symbols.file != path {
            let k = choose|k: int| 0 <= k < fs.len() && (#[trigger] fs[k]).symbols.file == path;
            assert(short[k].symbols.file == path);
        }
        if is_replaced(short, path) {
            let k = choose|k: int|
                0 <= k < short.len() && (#[trigger] short[k]).symbols.file == path;
            assert(fs[k].symbols.file == path);
        }
    }
}

/// Whether a file was parsed.
pub open spec fn is_parsed(parsed: Seq<ParsedUpdateView>, path: Seq<char>) -> bool {
    exists|k: int| 0 <= k < parsed.len() && (#[trigger] parsed[k]).symbols.file == path
}

/// Whether the symbols of a file are written.
pub open spec fn is_replaced(us: Seq<FileUpdateView>, path: Seq<char>) -> bool {
    exists|k: int| 0 <= k < us.len() && (#[trigger] us[k]).symbols.file == path
}

/// Whether the checksum of a file is written.
pub open spec fn is_noted(us: Seq<ChecksumUpdateView>, path: Seq<char>) -> bool {
    exists|k: int| 0 <= k < us.len() && (#[trigger] us[k]).path == path
}

/// Of a file that was parsed, the symbols or the checksum are written; of any other nothing.
proof fn lemma_updates(
    files: Seq<FileRowView>,
    parsed: Seq<ParsedUpdateView>,
    path: Seq<char>,
    sum: Seq<char>,
)
    requires
        forall|k: int|
            0 <= k < parsed.len() && (#[trigger] parsed[k]).symbols.file == path
                ==> parsed[k].checksum == sum,
    ensures
        ({
            let us = reindex::symbol_updates(files, parsed);
            let cs = reindex::checksum_updates(files, parsed);
            &&& us.len() <= parsed.len()
            &&& forall|k: int|
                0 <= k < us.len() && (#[trigger] us[k]).symbols.file == path ==> us[k].checksum
                    == sum
            &&& forall|k: int|
                0 <= k < cs.len() && (#[trigger] cs[k]).path == path ==> cs[k].checksum == sum
            &&& is_replaced(us, path) || is_noted(cs, path) ==> is_parsed(parsed, path)
            &&& is_parsed(parsed, path) ==> is_replaced(us, path) || (is_noted(cs, path) && stored(
                files,
                path,
            ) is Some)
        }),
    decreases parsed.len(),
{
    if parsed.len() > 0 {
        let short = parsed.drop_last();
        let us0 = reindex::symbol_updates(files, short);
        let cs0 = reindex::checksum_updates(files, short);
        let us = reindex::symbol_updates(files, parsed);
        let cs = reindex::checksum_updates(files, parsed);
        let n = parsed.len() - 1;
        let last = parsed.last();
        assert(parsed[n] == last);
        assert forall|k: int| 0 <= k < short.len() && (#[trigger] short[k]).symbols.file
            == path implies short[k].checksum == sum by {
            assert(parsed[k] == short[k]);
        }
        lemma_updates(files, short, path, sum);
        if is_parsed(short, path) {
            let k = choose|k: int|
                0 <= k < short.len() && (#[trigger] short[k]).symbols.file == path;
            assert(parsed[k].symbols.file == path);
        }
        if is_replaced(us0, path) {
            let k = choose|k: int| 0 <= k < us0.len() && (#[trigger] us0[k]).symbols.file == path;
            assert(us[k].symbols.file == path);
        }
        if is_noted(cs0, path) {
            let k = choose|k: int| 0 <= k < cs0.len() && (#[trigger] cs0[k]).path == path;
            assert(cs[k].path == path);
        }
        if last.symbols.file == path {
            if reindex::keeps_symbols(files, last) {
                assert(cs[cs0.len() as int].path == path);
            } else {
                assert(us[us0.len() as int].symbols.file == path);
            }
        } else {
            if is_replaced(us, path) {
                let k = choose|k: int| 0 <= k < us.len() && (#[trigger] us[k]).symbols.file == path;
                assert(us0[k].symbols.file == path);
            }
            if is_noted(cs, path) {
                let k = choose|k: int| 0 <= k < cs.len() && (#[trigger] cs[k]).path == path;
                assert(cs0[k].path == path);
            }
            if is_parsed(parsed, path) {
                let k = choose|k: int|
                    0 <= k < parsed.len() && (#[trigger] parsed[k]).symbols.file == path;
                assert(short[k].symbols.file == path);
            }
        }
    }
}

/// The files to parse are found and not current.
proof fn lemma_to_parse(files: Seq<FileRowView>, found: Seq<FoundFileView>)
    requires
        found.len() <= usize::MAX,
    ensures
        ({
            let at = reindex::to_parse(files, found);
            forall|k: int|
                0 <= k < at.len() ==> (#[trigger] at[k]) < found.len() && !reindex::is_current(
                    files,
                    found[at[k] as int],
                )
        }),
    decreases found.len(),
{
    if found.len() > 0 {
        let short = found.drop_last();
        lemma_to_parse(files, short);
        let at0 = reindex::to_parse(files, short);
        let at = reindex::to_parse(files, found);
        assert forall|k: int| 0 <= k < at.len() implies (#[trigger] at[k]) < found.len()
            && !reindex::is_current(files, found[at[k] as int]) by {
            if k < at0.len() {
                assert(at[k] == at0[k]);
                assert(short[at0[k] as int] == found[at0[k] as int]);
            }
        }
    }
}

/// Whether a file is among those at some positions.
pub open spec fn is_picked(found: Seq<FoundFileView>, at: Seq<usize>, path: Seq<char>) -> bool {
    exists|k: int| 0 <= k < at.len() && found[(#[trigger] at[k]) as int].path == path
}

/// A file that is not current is among those to parse, under its path.
proof fn lemma_is_picked(files: Seq<FileRowView>, found: Seq<FoundFileView>, i: int)
    requires
        found.len() <= usize::MAX,
        0 <= i < found.len(),
        !reindex::is_current(files, found[i]),
        agree(found),
    ensures
        is_picked(found, reindex::to_parse(files, found), found[i].path),
    decreases found.len(),
{
    let short = found.drop_last();
    let at0 = reindex::to_parse(files, short);
    let at = reindex::to_parse(files, found);
    let n = found.len() - 1;
    let path = found[i].path;
    lemma_to_parse(files, short);
    assert forall|a: int, b: int|
        0 <= a < short.len() && 0 <= b < short.len() && (#[trigger] short[a]).path == (
        #[trigger] short[b]).path implies short[a].checksum == short[b].checksum by {
        assert(found[a] == short[a] && found[b] == short[b]);
    }
    let ps = reindex::found_paths(short);
    if ps.contains(path) {
        let j = choose|j: int| 0 <= j < ps.len() && ps[j] == path;
        assert(found[j] == short[j] && found[j].path == found[i].path);
        lemma_is_picked(files, short, j);
        let k = choose|k: int| 0 <= k < at0.len() && short[(#[trigger] at0[k]) as int].path == path;
        assert(at[k] == at0[k]);
        assert(short[at0[k] as int] == found[at0[k] as int]);
    } else {
        if i < n {
            assert(ps[i] == path);
        }
        assert(at[at0.len() as int] == n);
    }
}

/// Whether a file that was found more than once has one content.
pub open spec fn agree(found: Seq<FoundFileView>) -> bool {
    forall|i: int, j: int|
        0 <= i < found.len() && 0 <= j < found.len() && (#[trigger] found[i]).path == (
        #[trigger] found[j]).path ==> found[i].checksum == found[j].checksum
}

/// The stored files to take out are those that are missing.
proof fn lemma_to_remove(
    files: Seq<FileRowView>,
    roots: Seq<Seq<char>>,
    found: Seq<FoundFileView>,
    path: Seq<char>,
)
    ensures
        reindex::to_remove(files, roots, found).contains(path) ==> reindex::is_missing(
            path,
            roots,
            found,
        ),
        (exists|i: int| 0 <= i < files.len() && (#[trigger] files[i]).path == path)
            && reindex::is_missing(path, roots, found) ==> reindex::to_remove(
            files,
            roots,
            found,
        ).contains(path),
        (forall|i: int|
            0 <= i < files.len() ==> !reindex::is_missing(
                (#[trigger] files[i]).path,
                roots,
                found,
            )) ==> reindex::to_remove(files, roots, found).len() == 0,
    decreases files.len(),
{
    if files.len() > 0 {
        let short = files.drop_last();
        let last = files.last();
        lemma_to_remove(short, roots, found, path);
        let before = reindex::to_remove(short, roots, found);
        assert(files[files.len() - 1] == last);
        crate::text::lemma_push_contains(before, last.path);
        if exists|i: int| 0 <= i < files.len() && (#[trigger] files[i]).path == path {
            let i = choose|i: int| 0 <= i < files.len() && (#[trigger] files[i]).path == path;
            if i < short.len() {
                assert(short[i].path == path);
            }
        }
        if forall|i: int|
            0 <= i < files.len() ==> !reindex::is_missing((#[trigger] files[i]).path, roots, found) {
            assert forall|i: int| 0 <= i < short.len() implies !reindex::is_missing(
                (#[trigger] short[i]).path,
                roots,
                found,
            ) by {
                assert(files[i] == short[i]);
            }
        }
    }
}

/// Whether files were parsed as planned: for each file to parse its symbols and the checksum of
/// its content.
pub open spec fn as_planned(
    files: Seq<FileRowView>,
    found: Seq<FoundFileView>,
    parsed: Seq<ParsedUpdateView>,
) -> bool {
    let at = reindex::to_parse(files, found);
    &&& parsed.len() == at.len()
    &&& forall|k: int|
        0 <= k < parsed.len() ==> (#[trigger] parsed[k]).symbols.file == found[at[k] as int].path
            && parsed[k].checksum == found[at[k] as int].checksum
}

/// The row that a path has after an update as planned.
proof fn lemma_settled(
    t: TablesView,
    roots: Seq<Seq<char>>,
    found: Seq<FoundFileView>,
    parsed: Seq<ParsedUpdateView>,
    path: Seq<char>,
    sum: Seq<char>,
)
    requires
        incremental_laws::files_apart(t.files),
        t.files.len() + parsed.len() <= usize::MAX,
        incremental::top(incremental::file_ids(t.files)) + parsed.len() < i64::MAX,
        forall|k: int|
            0 <= k < parsed.len() && (#[trigger] parsed[k]).symbols.file == path
                ==> parsed[k].checksum == sum,
    ensures
        ({
            let after = incremental::updated(
                t,
                reindex::symbol_updates(t.files, parsed),
                reindex::checksum_updates(t.files, parsed),
                reindex::to_remove(t.files, roots, found),
            ).files;
            let is_removed = reindex::to_remove(t.files, roots, found).contains(path);
            &&& incremental_laws::files_apart(after)
            &&& after.len() <= usize::MAX
            &&& is_parsed(parsed, path) && !is_removed ==> (stored(after, path) matches Some(f)
                && f.checksum == Some(sum))
            &&& !is_parsed(parsed, path) && !is_removed ==> stored(after, path) == stored(
                t.files,
                path,
            )
            &&& !is_parsed(parsed, path) && is_removed ==> stored(after, path) is None
        }),
{
    let us = reindex::symbol_updates(t.files, parsed);
    let cs = reindex::checksum_updates(t.files, parsed);
    let gone = reindex::to_remove(t.files, roots, found);
    lemma_updates(t.files, parsed, path, sum);
    let start = UpdateView {
        tables: TablesView { files: incremental::all_checksums(t.files, cs), ..t },
        changes: incremental::no_changes(),
    };
    lemma_checksums_stored(t.files, cs, path, sum);
    incremental_laws::lemma_checksums(t.files, cs);
    lemma_removed_stored(start, gone, path);
    let middle = incremental::all_removed(start, gone);
    lemma_removed_top(start, gone);
    lemma_replaced_stored(
        middle,
        us,
        path,
        sum,
        incremental::top(incremental::file_ids(t.files)),
    );
}

/// Taking out files does not raise the largest number.
proof fn lemma_removed_top(u: UpdateView, paths: Seq<Seq<char>>)
    ensures
        incremental::top(
            incremental::file_ids(incremental::all_removed(u, paths).tables.files),
        ) <= incremental::top(incremental::file_ids(u.tables.files)),
    decreases paths.len(),
{
    if paths.len() > 0 {
        lemma_removed_top(u, paths.drop_last());
        let before = incremental::all_removed(u, paths.drop_last()).tables;
        if let Some(k) = incremental::row_of(before.files, paths.last()) {
            incremental::lemma_top_cleared(before, before.files[k].id);
        }
    }
}

/// Once an index was brought up to date there is nothing left to do: with the same files there,
/// none is parsed and none is taken out.
pub proof fn law_reindex_settles(
    t: TablesView,
    roots: Seq<Seq<char>>,
    found: Seq<FoundFileView>,
    parsed: Seq<ParsedUpdateView>,
)
    requires
        incremental_laws::files_apart(t.files),
        agree(found),
        found.len() <= usize::MAX,
        t.files.len() + parsed.len() <= usize::MAX,
        incremental::top(incremental::file_ids(t.files)) + parsed.len() < i64::MAX,
        as_planned(t.files, found, parsed),
    ensures
        ({
            let after = incremental::updated(
                t,
                reindex::symbol_updates(t.files, parsed),
                reindex::checksum_updates(t.files, parsed),
                reindex::to_remove(t.files, roots, found),
            ).files;
            &&& reindex::to_parse(after, found).len() == 0
            &&& reindex::to_remove(after, roots, found).len() == 0
        }),
{
    let gone = reindex::to_remove(t.files, roots, found);
    let after = incremental::updated(
        t,
        reindex::symbol_updates(t.files, parsed),
        reindex::checksum_updates(t.files, parsed),
        gone,
    ).files;
    let at = reindex::to_parse(t.files, found);
    lemma_to_parse(t.files, found);
    assert forall|i: int| 0 <= i < found.len() implies reindex::is_current(
        after,
        #[trigger] found[i],
    ) by {
        let path = found[i].path;
        let sum = found[i].checksum;
        assert forall|k: int| 0 <= k < parsed.len() && (#[trigger] parsed[k]).symbols.file
            == path implies parsed[k].checksum == sum by {
            assert(found[at[k] as int].path == found[i].path);
        }
        lemma_settled(t, roots, found, parsed, path, sum);
        lemma_to_remove(t.files, roots, found, path);
        assert(reindex::found_paths(found)[i] == path);
        assert(!gone.contains(path));
        if !reindex::is_current(t.files, found[i]) {
            lemma_is_picked(t.files, found, i);
            let k = choose|k: int|
                0 <= k < at.len() && found[(#[trigger] at[k]) as int].path == found[i].path;
            assert(parsed[k].symbols.file == path);
        }
    }
    lemma_nothing_to_parse(after, found);
    assert forall|i: int| 0 <= i < after.len() implies !reindex::is_missing(
        (#[trigger] after[i]).path,
        roots,
        found,
    ) by {
        let path = after[i].path;
        if reindex::is_missing(path, roots, found) {
            assert forall|k: int| 0 <= k < parsed.len() implies (#[trigger] parsed[k]).symbols.file
                != path by {
                let j = at[k] as int;
                assert(reindex::found_paths(found)[j] == found[j].path);
            }
            lemma_settled(t, roots, found, parsed, path, Seq::empty());
            lemma_stored(after, path);
            assert(after.contains(after[i]));
            if !gone.contains(path) {
                lemma_to_remove(t.files, roots, found, path);
                incremental_laws::lemma_row_of(t.files, path);
                let k = incremental::row_of(t.files, path)->0;
                assert(t.files[k].path == path);
            }
        }
    }
    lemma_to_remove(after, roots, found, Seq::empty());
}

/// Where all files are current there is none to parse.
proof fn lemma_nothing_to_parse(files: Seq<FileRowView>, found: Seq<FoundFileView>)
    requires
        forall|i: int| 0 <= i < found.len() ==> reindex::is_current(files, #[trigger] found[i]),
    ensures
        reindex::to_parse(files, found).len() == 0,
    decreases found.len(),
{
    if found.len() > 0 {
        let short = found.drop_last();
        assert forall|i: int| 0 <= i < short.len() implies reindex::is_current(
            files,
            #[trigger] short[i],
        ) by {
            assert(found[i] == short[i]);
        }
        assert(found[found.len() - 1] == found.last());
        lemma_nothing_to_parse(files, short);
    }
}

/// No two of the files to parse have one path.
proof fn lemma_parsed_once(files: Seq<FileRowView>, found: Seq<FoundFileView>)
    requires
        found.len() <= usize::MAX,
    ensures
        ({
            let at = reindex::to_parse(files, found);
            forall|i: int, j: int|
                0 <= i < j < at.len() ==> found[(#[trigger] at[i]) as int].path
                    != found[(#[trigger] at[j]) as int].path
        }),
    decreases found.len(),
{
    if found.len() > 0 {
        let short = found.drop_last();
        lemma_parsed_once(files, short);
        lemma_to_parse(files, short);
        let at0 = reindex::to_parse(files, short);
        let at = reindex::to_parse(files, found);
        assert forall|i: int, j: int| 0 <= i < j < at.len() implies found[(#[trigger] at[i]) as int].path
            != found[(#[trigger] at[j]) as int].path by {
            assert(at[i] == at0[i]);
            assert(short[at0[i] as int] == found[at0[i] as int]);
            if j < at0.len() {
                assert(at[j] == at0[j]);
                assert(short[at0[j] as int] == found[at0[j] as int]);
                assert(short[at0[i] as int].path != short[at0[j] as int].path);
            } else {
                assert(reindex::found_paths(short)[at0[i] as int] == found[at0[i] as int].path);
            }
        }
    }
}

/// What the files to write hold of a path that was parsed once or not at all.
proof fn lemma_written(
    files: Seq<FileRowView>,
    parsed: Seq<ParsedUpdateView>,
    before: Option<Contents>,
    path: Seq<char>,
)
    requires
        forall|i: int, j: int|
            0 <= i < j < parsed.len() ==> (#[trigger] parsed[i]).symbols.file != (
            #[trigger] parsed[j]).symbols.file,
    ensures
        ({
            let after = contents_laws::contents_with(
                before,
                reindex::symbol_updates(files, parsed),
                path,
            );
            &&& forall|k: int|
                0 <= k < parsed.len() && (#[trigger] parsed[k]).symbols.file == path ==> after
                    == if reindex::keeps_symbols(files, parsed[k]) {
                    before
                } else {
                    Some(contents_laws::contents_of(parsed[k].symbols))
                }
            &&& !is_parsed(parsed, path) ==> after == before
        }),
    decreases parsed.len(),
{
    if parsed.len() > 0 {
        let short = parsed.drop_last();
        assert forall|i: int, j: int| 0 <= i < j < short.len() implies (
        #[trigger] short[i]).symbols.file != (#[trigger] short[j]).symbols.file by {
            assert(parsed[i].symbols.file != parsed[j].symbols.file);
        }
        lemma_written(files, short, before, path);
        let p = parsed.last();
        let us0 = reindex::symbol_updates(files, short);
        let us = reindex::symbol_updates(files, parsed);
        if !reindex::keeps_symbols(files, p) {
            assert(us.drop_last() =~= us0);
        }
        if is_parsed(short, path) {
            let k = choose|k: int| 0 <= k < short.len() && (#[trigger] short[k]).symbols.file == path;
            assert(parsed[k].symbols.file != parsed[parsed.len() - 1].symbols.file);
        }
        assert forall|k: int|
            0 <= k < parsed.len() && (#[trigger] parsed[k]).symbols.file
                == path implies contents_laws::contents_with(before, us, path)
            == if reindex::keeps_symbols(files, parsed[k]) {
            before
        } else {
            Some(contents_laws::contents_of(parsed[k].symbols))
        } by {
            if k < short.len() {
                assert(short[k] == parsed[k]);
                assert(parsed[k].symbols.file != parsed[parsed.len() - 1].symbols.file);
            } else {
                assert forall|j: int| 0 <= j < short.len() implies (#[trigger] short[j]).symbols.file
                    != path by {
                    assert(parsed[j].symbols.file != parsed[k].symbols.file);
                }
                assert(!is_parsed(short, path));
            }
        }
        if !is_parsed(parsed, path) {
            assert(parsed[parsed.len() - 1].symbols.file != path);
            assert forall|j: int| 0 <= j < short.len() implies (#[trigger] short[j]).symbols.file
                != path by {
                assert(parsed[j].symbols.file != path);
            }
        }
    }
}

/// An index that was brought up to date shows the files as they are now: of a file that was
/// parsed again it holds the symbols found, or what it held before where their fingerprint is
/// the stored one; of a file that is not there any more it holds nothing; and of any other what
/// it held before.
pub proof fn law_reindex_shows_the_files(
    t: TablesView,
    roots: Seq<Seq<char>>,
    found: Seq<FoundFileView>,
    parsed: Seq<ParsedUpdateView>,
    path: Seq<char>,
)
    requires
        incremental_laws::sound(t),
        found.len() <= usize::MAX,
        as_planned(t.files, found, parsed),
        incremental::update_fits(t, reindex::symbol_updates(t.files, parsed)),
        incremental_laws::holdable(t, reindex::symbol_updates(t.files, parsed)),
    ensures
        ({
            let before = contents_laws::contents(t, path);
            let after = contents_laws::contents(
                incremental::updated(
                    t,
                    reindex::symbol_updates(t.files, parsed),
                    reindex::checksum_updates(t.files, parsed),
                    reindex::to_remove(t.files, roots, found),
                ),
                path,
            );
            &&& forall|k: int|
                0 <= k < parsed.len() && (#[trigger] parsed[k]).symbols.file == path ==> after
                    == if reindex::keeps_symbols(t.files, parsed[k]) {
                    before
                } else {
                    Some(contents_laws::contents_of(parsed[k].symbols))
                }
            &&& reindex::is_missing(path, roots, found) ==> after is None
            &&& !is_parsed(parsed, path) && !reindex::is_missing(path, roots, found) ==> after
                == before
        }),
{
    let us = reindex::symbol_updates(t.files, parsed);
    let gone = reindex::to_remove(t.files, roots, found);
    let at = reindex::to_parse(t.files, found);
    contents_laws::law_update_shows_the_files(
        t,
        us,
        reindex::checksum_updates(t.files, parsed),
        gone,
        path,
    );
    lemma_parsed_once(t.files, found);
    lemma_to_parse(t.files, found);
    assert forall|i: int, j: int| 0 <= i < j < parsed.len() implies (
    #[trigger] parsed[i]).symbols.file != (#[trigger] parsed[j]).symbols.file by {
        assert(found[at[i] as int].path != found[at[j] as int].path);
    }
    let middle = contents_laws::contents_without(contents_laws::contents(t, path), gone, path);
    lemma_written(t.files, parsed, middle, path);
    lemma_to_remove(t.files, roots, found, path);
    if is_parsed(parsed, path) {
        let k = choose|k: int| 0 <= k < parsed.len() && (#[trigger] parsed[k]).symbols.file == path;
        assert(reindex::found_paths(found)[at[k] as int] == path);
        assert(!reindex::is_missing(path, roots, found));
        assert(!gone.contains(path));
    }
    if reindex::is_missing(path, roots, found) && !gone.contains(path) {
        incremental_laws::lemma_row_of(t.files, path);
        if let Some(k) = incremental::row_of(t.files, path) {
            assert(t.files[k].path == path);
        }
    }
}

/// Whether a file is stored with a content: some row has its path and the checksum of the content.
pub open spec fn is_stored(files: Seq<FileRowView>, path: Seq<char>, sum: Seq<char>) -> bool {
    exists|r: int|
        0 <= r < files.len() && (#[trigger] files[r]).path == path && files[r].checksum == Some(sum)
}

/// Whether a row tells that the content of a file is the one that was indexed.
proof fn lemma_is_stored(files: Seq<FileRowView>, f: FoundFileView)
    requires
        incremental_laws::files_apart(files),
        files.len() <= usize::MAX,
    ensures
        reindex::is_current(files, f) == is_stored(files, f.path, f.checksum),
{
    incremental_laws::lemma_row_of(files, f.path);
    if is_stored(files, f.path, f.checksum) {
        let r = choose|r: int|
            0 <= r < files.len() && (#[trigger] files[r]).path == f.path && files[r].checksum
                == Some(f.checksum);
        let k = incremental::row_of(files, f.path)->0;
        assert(files[k].path == files[r].path);
    }
}

/// Every file that is new, or whose content is not the one that was indexed, is parsed.
pub proof fn law_reindex_parses_every_change(
    files: Seq<FileRowView>,
    found: Seq<FoundFileView>,
    i: int,
)
    requires
        incremental_laws::files_apart(files),
        files.len() <= usize::MAX,
        agree(found),
        found.len() <= usize::MAX,
        0 <= i < found.len(),
        !is_stored(files, found[i].path, found[i].checksum),
    ensures
        exists|k: int|
            0 <= k < reindex::to_parse(files, found).len() && found[(#[trigger] reindex::to_parse(
                files,
                found,
            )[k]) as int].path == found[i].path,
{
    lemma_is_stored(files, found[i]);
    lemma_is_picked(files, found, i);
}

/// Only files whose content is not the one that was indexed are parsed, and each path once.
pub proof fn law_reindex_parses_changes_alone(
    files: Seq<FileRowView>,
    found: Seq<FoundFileView>,
    k: int,
)
    requires
        incremental_laws::files_apart(files),
        files.len() <= usize::MAX,
        found.len() <= usize::MAX,
        0 <= k < reindex::to_parse(files, found).len(),
    ensures
        ({
            let at = reindex::to_parse(files, found);
            &&& at[k] < found.len()
            &&& !is_stored(files, found[at[k] as int].path, found[at[k] as int].checksum)
            &&& forall|j: int|
                0 <= j < at.len() && j != k ==> found[(#[trigger] at[j]) as int].path
                    != found[at[k] as int].path
        }),
{
    let at = reindex::to_parse(files, found);
    lemma_to_parse(files, found);
    lemma_parsed_once(files, found);
    lemma_is_stored(files, found[at[k] as int]);
    assert forall|j: int| 0 <= j < at.len() && j != k implies found[(#[trigger] at[j]) as int].path
        != found[at[k] as int].path by {
        if j < k {
            assert(found[at[j] as int].path != found[at[k] as int].path);
        } else {
            assert(found[at[k] as int].path != found[at[j] as int].path);
        }
    }
}

/// Exactly the stored files are taken out that lie below a root and are not there any more.
pub proof fn law_reindex_takes_out_what_is_gone(
    files: Seq<FileRowView>,
    roots: Seq<Seq<char>>,
    found: Seq<FoundFileView>,
    path: Seq<char>,
)
    ensures
        reindex::to_remove(files, roots, found).contains(path) <==> {
            &&& exists|r: int| 0 <= r < files.len() && (#[trigger] files[r]).path == path
            &&& exists|k: int| 0 <= k < roots.len() && paths::lies_below(path, #[trigger] roots[k])
            &&& forall|i: int| 0 <= i < found.len() ==> (#[trigger] found[i]).path != path
        },
{
    lemma_to_remove(files, roots, found, path);
    lemma_removed_is_stored(files, roots, found, path);
    let ps = reindex::found_paths(found);
    if ps.contains(path) {
        let i = choose|i: int| 0 <= i < ps.len() && ps[i] == path;
        assert(found[i].path == path);
    }
    assert forall|i: int| 0 <= i < found.len() && (#[trigger] found[i]).path == path implies ps.contains(
        path,
    ) by {
        assert(ps[i] == path);
    }
}

/// What is taken out is stored.
proof fn lemma_removed_is_stored(
    files: Seq<FileRowView>,
    roots: Seq<Seq<char>>,
    found: Seq<FoundFileView>,
    path: Seq<char>,
)
    ensures
        reindex::to_remove(files, roots, found).contains(path) ==> exists|r: int|
            0 <= r < files.len() && (#[trigger] files[r]).path == path,
    decreases files.len(),
{
    let all = reindex::to_remove(files, roots, found);
    if files.len() > 0 && all.contains(path) {
        let short = files.drop_last();
        let before = reindex::to_remove(short, roots, found);
        let m = choose|m: int| 0 <= m < all.len() && all[m] == path;
        if m < before.len() {
            assert(before[m] == path);
            lemma_removed_is_stored(short, roots, found, path);
            let r = choose|r: int| 0 <= r < short.len() && (#[trigger] short[r]).path == path;
            assert(files[r] == short[r]);
        } else {
            assert(files[files.len() - 1].path == path);
        }
    }
}

} // verus!
