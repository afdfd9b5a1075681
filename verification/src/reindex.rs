//! Brings a stored index up to date: which files to parse again, which to take out, and what to
//! write of those that were parsed.
use crate::checksum::file_symbols_checksum;
use crate::checksum;
use crate::incremental::{
    apply_incremental_update, can_apply, ChecksumUpdateView, FileUpdateView,
    IncrementalChecksumUpdate, IncrementalFileUpdate,
};
use crate::incremental;
use crate::index;
use crate::lookup::{NameLookup, NameSet};
use crate::paths::is_below;
use crate::paths;
use crate::rows::{FileRow, FileRowView, Tables};
use crate::stream::IncrementalDbUpdate;
use crate::text::same;
use crate::text;
use crate::types::{FileSymbols, FileSymbolsView};
use vstd::prelude::*;

verus! {

/// A source file that is there, with the checksum of its content.
#[derive(Debug)]
pub struct FoundFile {
    pub path: String,
    pub checksum: String,
}

/// A source file that is there.
pub struct FoundFileView {
    pub path: Seq<char>,
    pub checksum: Seq<char>,
}

impl View for FoundFile {
    type V = FoundFileView;

    open spec fn view(&self) -> FoundFileView {
        FoundFileView { path: self.path@, checksum: self.checksum@ }
    }
}

/// The paths of files that are there.
pub open spec fn found_paths(found: Seq<FoundFileView>) -> Seq<Seq<char>> {
    found.map_values(|f: FoundFileView| f.path)
}

/// Whether the content of a file is the one that was indexed.
pub open spec fn is_current(files: Seq<FileRowView>, f: FoundFileView) -> bool {
    incremental::row_of(files, f.path) matches Some(k) && files[k].checksum == Some(f.checksum)
}

/// The positions of the files to parse: those that are new or whose content has changed, each
/// path once.
pub open spec fn to_parse(files: Seq<FileRowView>, found: Seq<FoundFileView>) -> Seq<usize>
    decreases found.len(),
{
    if found.len() == 0 {
        Seq::empty()
    } else {
        let before = to_parse(files, found.drop_last());
        if is_current(files, found.last()) || found_paths(found.drop_last()).contains(
            found.last().path,
        ) {
            before
        } else {
            before.push((found.len() - 1) as usize)
        }
    }
}

/// Whether a path lies below one of the roots.
pub open spec fn is_covered(path: Seq<char>, roots: Seq<Seq<char>>) -> bool {
    exists|k: int| 0 <= k < roots.len() && paths::lies_below(path, #[trigger] roots[k])
}

/// Whether a stored file is to be taken out: it lies below a root and is not there any more.
pub open spec fn is_missing(
    path: Seq<char>,
    roots: Seq<Seq<char>>,
    found: Seq<FoundFileView>,
) -> bool {
    is_covered(path, roots) && !found_paths(found).contains(path)
}

/// The paths of the stored files to take out.
pub open spec fn to_remove(
    files: Seq<FileRowView>,
    roots: Seq<Seq<char>>,
    found: Seq<FoundFileView>,
) -> Seq<Seq<char>>
    decreases files.len(),
{
    if files.len() == 0 {
        Seq::empty()
    } else {
        let before = to_remove(files.drop_last(), roots, found);
        if is_missing(files.last().path, roots, found) {
            before.push(files.last().path)
        } else {
            before
        }
    }
}

/// What has to be done to bring a stored index up to date.
#[derive(Debug)]
pub struct ReindexPlan {
    pub parse: Vec<usize>,
    pub removed: Vec<String>,
}

/// A lookup from paths to the positions of stored files.
fn index_paths(files: &Vec<FileRow>) -> (r: NameLookup)
    ensures
        forall|p: Seq<char>| #[trigger]
            r.at(p) == index::spots(incremental::row_paths(text::views(files@)), p),
{
    let ghost keys = incremental::row_paths(text::views(files@));
    let mut r = NameLookup::new();
    let mut i: usize = 0;
    while i < files.len()
        invariant
            keys == incremental::row_paths(text::views(files@)),
            i <= files@.len(),
            forall|p: Seq<char>| #[trigger] r.at(p) == index::spots(keys.take(i as int), p),
        decreases files@.len() - i,
    {
        r.add(&files[i].path, i);
        proof {
            assert(keys.take(i + 1).drop_last() =~= keys.take(i as int));
            assert(keys.take(i + 1).last() == files@[i as int].path@);
        }
        i = i + 1;
    }
    assert(keys.take(i as int) =~= keys);
    r
}

/// Finds the row of the file at a path.
fn row_at<'a>(files: &'a Vec<FileRow>, by_path: &NameLookup, path: &str) -> (r: Option<&'a FileRow>)
    requires
        by_path.at(path@) == index::spots(incremental::row_paths(text::views(files@)), path@),
    ensures
        match (r, incremental::row_of(text::views(files@), path@)) {
            (Some(f), Some(k)) => f@ == text::views(files@)[k],
            (None, None) => true,
            _ => false,
        },
{
    proof {
        assert(files.len() == files@.len());
        index::lemma_spots(incremental::row_paths(text::views(files@)), path@);
    }
    match by_path.get(path) {
        Some(at) => if at.len() > 0 {
            Some(&files[at[0]])
        } else {
            None
        },
        None => None,
    }
}

/// Whether an optional text is a text.
fn is_text(o: &Option<String>, s: &str) -> (r: bool)
    ensures
        r == (text::view_opt(*o) == Some(s@)),
{
    match o {
        Some(x) => same(x.as_str(), s),
        None => false,
    }
}

/// Whether a path lies below one of the roots.
fn covers(path: &str, roots: &Vec<String>) -> (r: bool)
    ensures
        r == is_covered(path@, text::views(roots@)),
{
    let ghost all = text::views(roots@);
    let mut i: usize = 0;
    while i < roots.len()
        invariant
            all == text::views(roots@),
            i <= roots@.len(),
            forall|k: int| 0 <= k < i ==> !paths::lies_below(path@, #[trigger] all[k]),
        decreases roots@.len() - i,
    {
        assert(all[i as int] == roots@[i as int]@);
        if is_below(path, roots[i].as_str()) {
            return true;
        }
        i = i + 1;
    }
    false
}

/// Finds out what has to be done to bring a stored index up to date.
pub fn plan_reindex(files: &Vec<FileRow>, roots: &Vec<String>, found: &Vec<FoundFile>) -> (r:
    ReindexPlan)
    ensures
        r.parse@ == to_parse(text::views(files@), text::views(found@)),
        text::views(r.removed@) == to_remove(
            text::views(files@),
            text::views(roots@),
            text::views(found@),
        ),
{
    let ghost rows = text::views(files@);
    let ghost all = text::views(found@);
    let by_path = index_paths(files);
    let mut there = NameSet::new();
    let mut parse: Vec<usize> = Vec::new();
    let mut i: usize = 0;
    proof {
        assert(all.take(0) =~= Seq::empty());
        assert(found_paths(all.take(0)) =~= Seq::empty());
    }
    while i < found.len()
        invariant
            rows == text::views(files@),
            all == text::views(found@),
            forall|p: Seq<char>| #[trigger]
                by_path.at(p) == index::spots(incremental::row_paths(rows), p),
            i <= found@.len(),
            forall|p: Seq<char>| #[trigger]
                there@.contains(p) <==> found_paths(all.take(i as int)).contains(p),
            parse@ == to_parse(rows, all.take(i as int)),
        decreases found@.len() - i,
    {
        let f = &found[i];
        proof {
            assert(all.take(i + 1).drop_last() =~= all.take(i as int));
            assert(all.take(i + 1).last() == f@);
            assert(found_paths(all.take(i + 1)) =~= found_paths(all.take(i as int)).push(f.path@));
            text::lemma_push_contains(found_paths(all.take(i as int)), f.path@);
        }
        if !there.contains(f.path.as_str()) {
            there.insert(&f.path);
            let current = match row_at(files, &by_path, f.path.as_str()) {
                Some(row) => is_text(&row.checksum, f.checksum.as_str()),
                None => false,
            };
            if !current {
                parse.push(i);
            }
        }
        i = i + 1;
    }
    assert(all.take(i as int) =~= all);
    let mut removed: Vec<String> = Vec::new();
    let mut j: usize = 0;
    proof {
        assert(text::views(removed@) =~= Seq::empty());
    }
    while j < files.len()
        invariant
            rows == text::views(files@),
            all == text::views(found@),
            forall|p: Seq<char>| #[trigger] there@.contains(p) <==> found_paths(all).contains(p),
            j <= files@.len(),
            text::views(removed@) == to_remove(rows.take(j as int), text::views(roots@), all),
        decreases files@.len() - j,
    {
        let path = &files[j].path;
        proof {
            assert(rows.take(j + 1).drop_last() =~= rows.take(j as int));
            assert(rows.take(j + 1).last() == files@[j as int]@);
        }
        if covers(path.as_str(), roots) && !there.contains(path.as_str()) {
            let copy = path.clone();
            proof {
                text::lemma_views_push(removed@, copy);
            }
            removed.push(copy);
        }
        j = j + 1;
    }
    assert(rows.take(j as int) =~= rows);
    ReindexPlan { parse, removed }
}

/// A file that was parsed again, with the checksum of its content.
#[derive(Debug)]
pub struct ParsedUpdate {
    pub symbols: FileSymbols,
    pub checksum: String,
}

/// A file that was parsed again.
pub struct ParsedUpdateView {
    pub symbols: FileSymbolsView,
    pub checksum: Seq<char>,
}

impl View for ParsedUpdate {
    type V = ParsedUpdateView;

    open spec fn view(&self) -> ParsedUpdateView {
        ParsedUpdateView { symbols: self.symbols@, checksum: self.checksum@ }
    }
}

/// Whether the symbols of a file are those that are stored.
pub open spec fn keeps_symbols(files: Seq<FileRowView>, p: ParsedUpdateView) -> bool {
    incremental::row_of(files, p.symbols.file) matches Some(k) && files[k].symbols_checksum == Some(
        checksum::symbols_checksum(p.symbols),
    )
}

/// The files whose symbols have to be written.
pub open spec fn symbol_updates(files: Seq<FileRowView>, parsed: Seq<ParsedUpdateView>) -> Seq<
    FileUpdateView,
>
    decreases parsed.len(),
{
    if parsed.len() == 0 {
        Seq::empty()
    } else {
        let before = symbol_updates(files, parsed.drop_last());
        let p = parsed.last();
        if keeps_symbols(files, p) {
            before
        } else {
            before.push(
                FileUpdateView {
                    symbols: p.symbols,
                    checksum: p.checksum,
                    symbols_checksum: checksum::symbols_checksum(p.symbols),
                },
            )
        }
    }
}

/// The files of which only the checksum has to be written.
pub open spec fn checksum_updates(files: Seq<FileRowView>, parsed: Seq<ParsedUpdateView>) -> Seq<
    ChecksumUpdateView,
>
    decreases parsed.len(),
{
    if parsed.len() == 0 {
        Seq::empty()
    } else {
        let before = checksum_updates(files, parsed.drop_last());
        let p = parsed.last();
        if keeps_symbols(files, p) {
            before.push(
                ChecksumUpdateView {
                    path: p.symbols.file,
                    checksum: p.checksum,
                    symbols_checksum: checksum::symbols_checksum(p.symbols),
                },
            )
        } else {
            before
        }
    }
}

/// The fingerprints of the symbols of files.
fn fingerprints(parsed: &Vec<ParsedUpdate>) -> (r: Vec<String>)
    ensures
        r@.len() == parsed@.len(),
        forall|k: int|
            0 <= k < r@.len() ==> (#[trigger] r@[k])@ == checksum::symbols_checksum(
                parsed@[k].symbols@,
            ),
{
    let mut r: Vec<String> = Vec::new();
    let mut i: usize = 0;
    while i < parsed.len()
        invariant
            i <= parsed@.len(),
            r@.len() == i,
            forall|k: int|
                0 <= k < i ==> (#[trigger] r@[k])@ == checksum::symbols_checksum(
                    parsed@[k].symbols@,
                ),
        decreases parsed@.len() - i,
    {
        r.push(file_symbols_checksum(&parsed[i].symbols));
        i = i + 1;
    }
    r
}

/// Writes what was found out about a stored index: files that were parsed again replace what is
/// stored of them, or only their checksums where their symbols have stayed the same; files that
/// are not there any more are taken out. Nothing is written where the rows cannot be numbered.
pub fn apply_reindex(tables: &mut Tables, parsed: &Vec<ParsedUpdate>, removed: &Vec<String>) -> (r:
    Option<IncrementalDbUpdate>)
    ensures
        ({
            let written = symbol_updates(old(tables)@.files, text::views(parsed@));
            match r {
                Some(counts) => {
                    &&& incremental::update_fits(old(tables)@, written)
                    &&& final(tables)@ == incremental::updated(
                        old(tables)@,
                        written,
                        checksum_updates(old(tables)@.files, text::views(parsed@)),
                        text::views(removed@),
                    )
                    &&& counts == (IncrementalDbUpdate {
                        definitions_inserted: incremental::total_definitions(written) as usize,
                        references_inserted: incremental::total_references(written) as usize,
                        calls_inserted: incremental::total_calls(written) as usize,
                        inheritance_inserted: incremental::total_inherits(written) as usize,
                    })
                },
                None => {
                    &&& !incremental::update_fits(old(tables)@, written)
                    &&& *final(tables) == *old(tables)
                },
            }
        }),
{
    let ghost rows = tables@.files;
    let ghost all = text::views(parsed@);
    let prints = fingerprints(parsed);
    let by_path = index_paths(&tables.files);
    let mut updates: Vec<IncrementalFileUpdate<'_>> = Vec::new();
    let mut checksums: Vec<IncrementalChecksumUpdate<'_>> = Vec::new();
    let mut i: usize = 0;
    proof {
        assert(text::views(updates@) =~= Seq::empty());
        assert(text::views(checksums@) =~= Seq::empty());
    }
    while i < parsed.len()
        invariant
            *tables == *old(tables),
            rows == tables@.files,
            all == text::views(parsed@),
            prints@.len() == parsed@.len(),
            forall|k: int|
                0 <= k < prints@.len() ==> (#[trigger] prints@[k])@ == checksum::symbols_checksum(
                    parsed@[k].symbols@,
                ),
            forall|p: Seq<char>| #[trigger]
                by_path.at(p) == index::spots(incremental::row_paths(rows), p),
            i <= parsed@.len(),
            text::views(updates@) == symbol_updates(rows, all.take(i as int)),
            text::views(checksums@) == checksum_updates(rows, all.take(i as int)),
        decreases parsed@.len() - i,
    {
        let p = &parsed[i];
        proof {
            assert(all.take(i + 1).drop_last() =~= all.take(i as int));
            assert(all.take(i + 1).last() == p@);
            assert(prints@[i as int]@ == checksum::symbols_checksum(p.symbols@));
        }
        let kept = match row_at(&tables.files, &by_path, p.symbols.file.as_str()) {
            Some(row) => is_text(&row.symbols_checksum, prints[i].as_str()),
            None => false,
        };
        if kept {
            let u = IncrementalChecksumUpdate {
                path: p.symbols.file.as_str(),
                checksum: p.checksum.as_str(),
                symbols_checksum: prints[i].as_str(),
            };
            proof {
                text::lemma_views_push(checksums@, u);
            }
            checksums.push(u);
        } else {
            let u = IncrementalFileUpdate {
                symbols: &p.symbols,
                checksum: p.checksum.as_str(),
                symbols_checksum: prints[i].as_str(),
            };
            proof {
                text::lemma_views_push(updates@, u);
            }
            updates.push(u);
        }
        i = i + 1;
    }
    assert(all.take(i as int) =~= all);
    if !can_apply(tables, &updates) {
        return None;
    }
    Some(apply_incremental_update(tables, &updates, &checksums, removed))
}

} // verus!
