//! A streamed write stores what a write of the whole index stores.
use crate::checksum;
use crate::cpp_parser;
use crate::db_laws;
use crate::index::IndexView;
use crate::index;
use crate::language::ReferenceMode;
use crate::parser_laws;
use crate::rows::{DefinitionRowView, TablesView};
use crate::save;
use crate::stream::StreamView;
use crate::stream;
use crate::stream_order::StreamedFileView;
use crate::syntax::SyntaxTree;
use crate::types::{DefinitionView, FileSymbolsView, IndexedFileView, ReferenceView};
use vstd::prelude::*;

verus! {

/// Whether all symbols of a file stand in it.
pub open spec fn in_its_file(f: FileSymbolsView) -> bool {
    &&& forall|i: int| 0 <= i < f.definitions.len() ==> (#[trigger] f.definitions[i]).location.file == f.file
    &&& forall|i: int| 0 <= i < f.references.len() ==> (#[trigger] f.references[i]).location.file == f.file
    &&& forall|i: int| 0 <= i < f.calls.len() ==> (#[trigger] f.calls[i]).location.file == f.file
    &&& forall|i: int| 0 <= i < f.inherits.len() ==> (#[trigger] f.inherits[i]).location.file == f.file
}

/// Whether all symbols of a file stand in it and none of its references is resolved yet, as the
/// parser leaves them.
pub open spec fn freshly_parsed(f: FileSymbolsView) -> bool {
    &&& in_its_file(f)
    &&& forall|i: int| 0 <= i < f.references.len() ==> (#[trigger] f.references[i]).def_id is None
}

/// What was streamed after some files.
pub open spec fn stream_of(files: Seq<StreamedFileView>) -> StreamView
    decreases files.len(),
{
    if files.len() == 0 {
        stream::stream_start()
    } else {
        stream::stream_step(stream_of(files.drop_last()), files.last())
    }
}

/// The rows of the definitions of streamed files.
pub open spec fn stream_definition_rows(files: Seq<StreamedFileView>) -> Seq<DefinitionRowView>
    decreases files.len(),
{
    if files.len() == 0 {
        Seq::empty()
    } else {
        stream_definition_rows(files.drop_last()) + stream::streamed_definition_rows(
            stream_of(files.drop_last()),
            files.last(),
        )
    }
}

/// The tables that a streamed write of files leaves.
pub open spec fn stream_tables(files: Seq<StreamedFileView>) -> TablesView {
    TablesView {
        files: files.map_values(|f: StreamedFileView| stream::streamed_file_row(f)),
        definitions: stream_definition_rows(files),
        refs: stream::streamed_refs(stream_of(files)),
        calls: stream::streamed_calls(stream_of(files)),
        inherits: stream::streamed_inherits(stream_of(files)),
    }
}

/// A streamed file as the index lists it.
pub open spec fn listed(f: StreamedFileView) -> IndexedFileView {
    IndexedFileView {
        path: f.symbols.file,
        language: f.symbols.language,
        checksum: Some(f.checksum),
        symbols_checksum: Some(f.symbols_checksum),
    }
}

/// The index over files, before its references are resolved.
pub open spec fn collected(files: Seq<StreamedFileView>) -> IndexView
    decreases files.len(),
{
    if files.len() == 0 {
        index::empty_index()
    } else {
        let ix = collected(files.drop_last());
        let f = files.last();
        IndexView { files: ix.files.push(listed(f)), ..index::with_file(ix, f.symbols) }
    }
}

/// Whether files come in the order of their positions, each path once, as the parser leaves
/// them.
pub open spec fn in_order(files: Seq<StreamedFileView>) -> bool {
    &&& forall|i: int| 0 <= i < files.len() ==> (#[trigger] files[i]).index == i
    &&& forall|i: int| 0 <= i < files.len() ==> freshly_parsed((#[trigger] files[i]).symbols)
    &&& forall|i: int, j: int|
        0 <= i < j < files.len() ==> (#[trigger] files[i]).symbols.file != (
        #[trigger] files[j]).symbols.file
}

/// Whether a number is that of the file at a path.
spec fn numbers(files: Seq<StreamedFileView>, id: i64, path: Seq<char>) -> bool {
    exists|j: int| 0 <= j < files.len() && id == j + 1 && (#[trigger] files[j]).symbols.file == path
}

/// Whether what was streamed is what the index collects, with the numbers of its files.
spec fn agrees(files: Seq<StreamedFileView>) -> bool {
    let s = stream_of(files);
    let ix = collected(files);
    let rows = stream_definition_rows(files);
    &&& s.definitions == ix.definitions
    &&& s.references.len() == ix.references.len()
    &&& s.calls.len() == ix.calls.len()
    &&& s.inherits.len() == ix.inherits.len()
    &&& rows.len() == ix.definitions.len()
    &&& ix.files == files.map_values(|f: StreamedFileView| listed(f))
    &&& forall|k: int|
        0 <= k < s.references.len() ==> (#[trigger] s.references[k]).1 == ix.references[k]
            && ix.references[k].def_id is None && numbers(
            files,
            s.references[k].0,
            ix.references[k].location.file,
        )
    &&& forall|k: int|
        0 <= k < s.calls.len() ==> (#[trigger] s.calls[k]).1 == ix.calls[k] && numbers(
            files,
            s.calls[k].0,
            ix.calls[k].location.file,
        )
    &&& forall|k: int|
        0 <= k < s.inherits.len() ==> (#[trigger] s.inherits[k]).1 == ix.inherits[k] && numbers(
            files,
            s.inherits[k].0,
            ix.inherits[k].location.file,
        )
    &&& forall|k: int|
        0 <= k < rows.len() ==> (#[trigger] rows[k]).file_id is Some && numbers(
            files,
            rows[k].file_id->0,
            ix.definitions[k].location.file,
        ) && rows[k] == save::definition_row((k + 1) as i64, rows[k].file_id, ix.definitions[k])
}

proof fn lemma_numbers_extend(files: Seq<StreamedFileView>, id: i64, path: Seq<char>)
    requires
        files.len() > 0,
        numbers(files.drop_last(), id, path),
    ensures
        numbers(files, id, path),
{
    let j = choose|j: int|
        0 <= j < files.drop_last().len() && id == j + 1 && (
        #[trigger] files.drop_last()[j]).symbols.file == path;
    assert(files[j] == files.drop_last()[j]);
}

#[verifier::spinoff_prover]
proof fn lemma_agrees(files: Seq<StreamedFileView>)
    requires
        in_order(files),
        files.len() < i64::MAX,
    ensures
        agrees(files),
    decreases files.len(),
{
    if files.len() == 0 {
        assert(collected(files).files =~= files.map_values(|f: StreamedFileView| listed(f)));
    } else {
        let short = files.drop_last();
        let f = files.last();
        lemma_in_order_prefix(files);
        lemma_agrees(short);
        let n = files.len() - 1;
        assert(files[n] == f);
        assert(freshly_parsed(f.symbols));
        let id = stream::streamed_number(f);
        assert(id == n + 1);
        assert forall|path: Seq<char>| path == f.symbols.file implies #[trigger] numbers(
            files,
            id,
            path,
        ) by {
            assert(files[n].symbols.file == path);
        }
        let s = stream_of(files);
        let before = stream_of(short);
        let ix = collected(files);
        let old_ix = collected(short);
        let rows = stream_definition_rows(files);
        let old_rows = stream_definition_rows(short);
        assert(ix.files =~= files.map_values(|f: StreamedFileView| listed(f)));
        assert(s.definitions =~= ix.definitions);
        assert(s.references.len() == ix.references.len());
        assert(s.calls.len() == ix.calls.len());
        assert(s.inherits.len() == ix.inherits.len());
        assert(rows.len() == ix.definitions.len());
        assert forall|k: int| 0 <= k < s.references.len() implies (#[trigger] s.references[k]).1
            == ix.references[k] && ix.references[k].def_id is None && numbers(
            files,
            s.references[k].0,
            ix.references[k].location.file,
        ) by {
            if k < before.references.len() {
                assert(s.references[k] == before.references[k]);
                lemma_numbers_extend(files, s.references[k].0, ix.references[k].location.file);
            } else {
                let m = k - before.references.len();
                assert(s.references[k] == (id, f.symbols.references[m]));
                assert(f.symbols.references[m].location.file == f.symbols.file);
                assert(numbers(files, id, f.symbols.file));
            }
        }
        assert forall|k: int| 0 <= k < s.calls.len() implies (#[trigger] s.calls[k]).1 == ix.calls[k]
            && numbers(files, s.calls[k].0, ix.calls[k].location.file) by {
            if k < before.calls.len() {
                assert(s.calls[k] == before.calls[k]);
                lemma_numbers_extend(files, s.calls[k].0, ix.calls[k].location.file);
            } else {
                let m = k - before.calls.len();
                assert(s.calls[k] == (id, f.symbols.calls[m]));
                assert(f.symbols.calls[m].location.file == f.symbols.file);
                assert(numbers(files, id, f.symbols.file));
            }
        }
        assert forall|k: int| 0 <= k < s.inherits.len() implies (#[trigger] s.inherits[k]).1
            == ix.inherits[k] && numbers(files, s.inherits[k].0, ix.inherits[k].location.file) by {
            if k < before.inherits.len() {
                assert(s.inherits[k] == before.inherits[k]);
                lemma_numbers_extend(files, s.inherits[k].0, ix.inherits[k].location.file);
            } else {
                let m = k - before.inherits.len();
                assert(s.inherits[k] == (id, f.symbols.inherits[m]));
                assert(f.symbols.inherits[m].location.file == f.symbols.file);
                assert(numbers(files, id, f.symbols.file));
            }
        }
        assert forall|k: int| 0 <= k < rows.len() implies (#[trigger] rows[k]).file_id is Some
            && numbers(files, rows[k].file_id->0, ix.definitions[k].location.file) && rows[k]
            == save::definition_row((k + 1) as i64, rows[k].file_id, ix.definitions[k]) by {
            if k < old_rows.len() {
                assert(rows[k] == old_rows[k]);
                lemma_numbers_extend(files, rows[k].file_id->0, ix.definitions[k].location.file);
            } else {
                let m = k - old_rows.len();
                assert(rows[k] == stream::streamed_definition_rows(before, f)[m]);
                assert(f.symbols.definitions[m].location.file == f.symbols.file);
                assert(numbers(files, id, f.symbols.file));
            }
        }
    }
}

/// The number of a file is found by its path.
proof fn lemma_number_found(files: Seq<StreamedFileView>, id: i64, path: Seq<char>)
    requires
        in_order(files),
        files.len() < i64::MAX,
        files.len() <= usize::MAX,
        numbers(files, id, path),
    ensures
        save::file_number(files.map_values(|f: StreamedFileView| listed(f)), path) == Some(id),
{
    let list = files.map_values(|f: StreamedFileView| listed(f));
    let keys = save::paths(list);
    let at = index::spots(keys, path);
    index::lemma_spots(keys, path);
    let j = choose|j: int|
        0 <= j < files.len() && id == j + 1 && (#[trigger] files[j]).symbols.file == path;
    assert(keys[j] == path);
    assert(at.contains(j as usize));
    let k = at[at.len() - 1];
    assert(keys[k as int] == path);
    assert(files[k as int].symbols.file == path);
    if k != j {
        assert(files[k as int].symbols.file != files[j].symbols.file);
    }
}

/// Files that are streamed in order leave the same rows as the index over them does when it is
/// written as a whole.
pub proof fn law_streamed_is_saved(files: Seq<StreamedFileView>, contents: Seq<Option<Seq<char>>>)
    requires
        in_order(files),
        files.len() < i64::MAX,
        files.len() <= usize::MAX,
        collected(files).definitions.len() <= usize::MAX,
    ensures
        stream_tables(files) == save::saved(index::with_references_resolved(collected(files)), contents),
{
    lemma_agrees(files);
    let s = stream_of(files);
    let raw = collected(files);
    let ix = index::with_references_resolved(raw);
    let got = stream_tables(files);
    let want = save::saved(ix, contents);
    let list = files.map_values(|f: StreamedFileView| listed(f));
    assert forall|i: int| 0 <= i < files.len() implies got.files[i] == want.files[i] by {
        assert(files[i].index == i);
    }
    assert(got.files =~= want.files);
    assert forall|k: int| 0 <= k < raw.definitions.len() implies got.definitions[k]
        == want.definitions[k] by {
        let row = stream_definition_rows(files)[k];
        lemma_number_found(files, row.file_id->0, raw.definitions[k].location.file);
    }
    assert(got.definitions =~= want.definitions);
    assert forall|k: int| 0 <= k < s.references.len() implies got.refs[k] == want.refs[k] by {
        assert(s.references[k].1 == raw.references[k]);
        lemma_number_found(files, s.references[k].0, raw.references[k].location.file);
        index::lemma_resolution(raw.definitions, raw.references[k].name);
        assert(ix.references[k] == index::resolved(raw.definitions, raw.references[k]));
    }
    assert(got.refs =~= want.refs);
    assert forall|k: int| 0 <= k < s.calls.len() implies got.calls[k] == want.calls[k] by {
        assert(s.calls[k].1 == raw.calls[k]);
        lemma_number_found(files, s.calls[k].0, raw.calls[k].location.file);
    }
    assert(got.calls =~= want.calls);
    assert forall|k: int| 0 <= k < s.inherits.len() implies got.inherits[k] == want.inherits[k] by {
        assert(s.inherits[k].1 == raw.inherits[k]);
        lemma_number_found(files, s.inherits[k].0, raw.inherits[k].location.file);
    }
    assert(got.inherits =~= want.inherits);
}

/// The index over files that the parser read is whole: every symbol stands in one of the files,
/// and every reference that is resolved points to one of the definitions. So it survives being
/// saved and loaded.
pub proof fn law_parsed_index_is_whole(files: Seq<StreamedFileView>)
    requires
        in_order(files),
        files.len() < i64::MAX,
        collected(files).definitions.len() <= usize::MAX,
    ensures
        db_laws::closed_index(index::with_references_resolved(collected(files))),
{
    lemma_agrees(files);
    let s = stream_of(files);
    let raw = collected(files);
    let ix = index::with_references_resolved(raw);
    assert forall|i: int| 0 <= i < ix.definitions.len() implies save::paths(ix.files).contains(
        (#[trigger] ix.definitions[i]).location.file,
    ) by {
        lemma_listed(files, stream_definition_rows(files)[i].file_id->0, ix.definitions[i].location.file);
    }
    assert forall|i: int| 0 <= i < ix.references.len() implies save::paths(ix.files).contains(
        (#[trigger] ix.references[i]).location.file,
    ) by {
        assert(s.references[i].1 == raw.references[i]);
        lemma_listed(files, s.references[i].0, raw.references[i].location.file);
    }
    assert forall|i: int| 0 <= i < ix.calls.len() implies save::paths(ix.files).contains(
        (#[trigger] ix.calls[i]).location.file,
    ) by {
        assert(s.calls[i].1 == raw.calls[i]);
        lemma_listed(files, s.calls[i].0, raw.calls[i].location.file);
    }
    assert forall|i: int| 0 <= i < ix.inherits.len() implies save::paths(ix.files).contains(
        (#[trigger] ix.inherits[i]).location.file,
    ) by {
        assert(s.inherits[i].1 == raw.inherits[i]);
        lemma_listed(files, s.inherits[i].0, raw.inherits[i].location.file);
    }
    assert forall|i: int| 0 <= i < ix.references.len() implies ((
    #[trigger] ix.references[i]).def_id matches Some(id) ==> id.0 < ix.definitions.len()) by {
        assert(s.references[i].1 == raw.references[i]);
        index::lemma_resolution(raw.definitions, raw.references[i].name);
    }
}

proof fn lemma_listed(files: Seq<StreamedFileView>, id: i64, path: Seq<char>)
    requires
        numbers(files, id, path),
    ensures
        save::paths(files.map_values(|f: StreamedFileView| listed(f))).contains(path),
{
    let j = choose|j: int|
        0 <= j < files.len() && id == j + 1 && (#[trigger] files[j]).symbols.file == path;
    assert(save::paths(files.map_values(|f: StreamedFileView| listed(f)))[j] == path);
}

/// The parser leaves the symbols of a file as they are streamed.
pub proof fn law_parser_output_is_fresh(
    path: Seq<char>,
    source: Seq<char>,
    language: Seq<char>,
    t: SyntaxTree,
    mode: ReferenceMode,
    with_context: bool,
)
    ensures
        freshly_parsed(cpp_parser::tree_symbols(path, source, language, t, mode, with_context)),
{
    parser_laws::law_definitions_are_qualified(path, source, language, t, mode, with_context);
    parser_laws::law_references_and_calls_are_sound(path, source, language, t, mode, with_context);
}

/// A filter that keeps everything changes nothing.
proof fn lemma_filter_all<T>(s: Seq<T>, p: spec_fn(T) -> bool)
    requires
        forall|i: int| 0 <= i < s.len() ==> p(#[trigger] s[i]),
    ensures
        s.filter(p) == s,
    decreases s.len(),
{
    reveal(Seq::filter);
    if s.len() > 0 {
        assert forall|i: int| 0 <= i < s.drop_last().len() implies p(#[trigger] s.drop_last()[i]) by {
            assert(s.drop_last()[i] == s[i]);
        }
        lemma_filter_all(s.drop_last(), p);
        assert(p(s[s.len() - 1]));
        assert(s.drop_last().push(s.last()) =~= s);
    }
}

/// A filter that keeps nothing leaves nothing.
proof fn lemma_filter_none<T>(s: Seq<T>, p: spec_fn(T) -> bool)
    requires
        forall|i: int| 0 <= i < s.len() ==> !p(#[trigger] s[i]),
    ensures
        s.filter(p) == Seq::<T>::empty(),
    decreases s.len(),
{
    reveal(Seq::filter);
    if s.len() > 0 {
        assert forall|i: int| 0 <= i < s.drop_last().len() implies !p(
            #[trigger] s.drop_last()[i],
        ) by {
            assert(s.drop_last()[i] == s[i]);
        }
        lemma_filter_none(s.drop_last(), p);
        assert(!p(s[s.len() - 1]));
    } else {
        assert(s =~= Seq::<T>::empty());
    }
}

/// A filter over two parts is a filter over each.
proof fn lemma_filter_concat<T>(a: Seq<T>, b: Seq<T>, p: spec_fn(T) -> bool)
    ensures
        (a + b).filter(p) == a.filter(p) + b.filter(p),
    decreases b.len(),
{
    reveal(Seq::filter);
    if b.len() == 0 {
        assert(a + b =~= a);
        assert(a.filter(p) + b =~= a.filter(p));
    } else {
        assert((a + b).drop_last() =~= a + b.drop_last());
        lemma_filter_concat(a, b.drop_last(), p);
        assert((a + b).filter(p) =~= a.filter(p) + b.filter(p));
    }
}

proof fn lemma_in_order_prefix(files: Seq<StreamedFileView>)
    requires
        in_order(files),
        files.len() > 0,
    ensures
        in_order(files.drop_last()),
{
    let short = files.drop_last();
    assert forall|i: int| 0 <= i < short.len() implies (#[trigger] short[i]).index == i by {
        assert(short[i] == files[i]);
    }
    assert forall|i: int| 0 <= i < short.len() implies freshly_parsed(
        (#[trigger] short[i]).symbols,
    ) by {
        assert(short[i] == files[i]);
    }
    assert forall|i: int, j: int| 0 <= i < j < short.len() implies (#[trigger] short[i]).symbols.file
        != (#[trigger] short[j]).symbols.file by {
        assert(short[i] == files[i] && short[j] == files[j]);
    }
}

/// Whether files have paths of their own and hold symbols of their own.
pub open spec fn apart(files: Seq<FileSymbolsView>) -> bool {
    &&& forall|i: int| 0 <= i < files.len() ==> in_its_file(#[trigger] files[i])
    &&& forall|i: int, j: int|
        0 <= i < j < files.len() ==> (#[trigger] files[i]).file != (#[trigger] files[j]).file
}

proof fn lemma_apart_prefix(files: Seq<FileSymbolsView>)
    requires
        apart(files),
        files.len() > 0,
    ensures
        apart(files.drop_last()),
{
    let short = files.drop_last();
    assert forall|i: int| 0 <= i < short.len() implies in_its_file(#[trigger] short[i]) by {
        assert(short[i] == files[i]);
    }
    assert forall|i: int, j: int| 0 <= i < j < short.len() implies (#[trigger] short[i]).file != (
    #[trigger] short[j]).file by {
        assert(short[i] == files[i] && short[j] == files[j]);
    }
}

/// What the index collects of one of its files is what was parsed of it.
proof fn lemma_part_of_file(files: Seq<FileSymbolsView>, j: int)
    requires
        apart(files),
        0 <= j < files.len(),
    ensures
        ({
            let part = save::file_part(index::merged(files), files[j].file);
            &&& part.definitions == files[j].definitions
            &&& part.references == files[j].references
            &&& part.calls == files[j].calls
            &&& part.inherits == files[j].inherits
        }),
    decreases files.len(),
{
    let short = files.drop_last();
    let f = files.last();
    let path = files[j].file;
    assert(files[files.len() - 1] == f);
    assert(in_its_file(f));
    lemma_apart_prefix(files);
    let ix = index::merged(short);
    lemma_filter_concat(ix.definitions, f.definitions, save::definition_in(path));
    lemma_filter_concat(ix.references, f.references, save::reference_in(path));
    lemma_filter_concat(ix.calls, f.calls, save::call_in(path));
    lemma_filter_concat(ix.inherits, f.inherits, save::inherit_in(path));
    if j < files.len() - 1 {
        assert(short[j] == files[j]);
        lemma_part_of_file(short, j);
        assert(files[j].file != files[files.len() - 1].file);
        lemma_filter_none(f.definitions, save::definition_in(path));
        lemma_filter_none(f.references, save::reference_in(path));
        lemma_filter_none(f.calls, save::call_in(path));
        lemma_filter_none(f.inherits, save::inherit_in(path));
    } else {
        lemma_no_part(short, path);
        lemma_filter_all(f.definitions, save::definition_in(path));
        lemma_filter_all(f.references, save::reference_in(path));
        lemma_filter_all(f.calls, save::call_in(path));
        lemma_filter_all(f.inherits, save::inherit_in(path));
    }
    let part = save::file_part(index::merged(files), path);
    assert(part.definitions =~= files[j].definitions);
    assert(part.references =~= files[j].references);
    assert(part.calls =~= files[j].calls);
    assert(part.inherits =~= files[j].inherits);
}

/// The index collects nothing of a file that is not among its files.
proof fn lemma_no_part(files: Seq<FileSymbolsView>, path: Seq<char>)
    requires
        apart(files),
        forall|i: int| 0 <= i < files.len() ==> (#[trigger] files[i]).file != path,
    ensures
        ({
            let part = save::file_part(index::merged(files), path);
            &&& part.definitions.len() == 0
            &&& part.references.len() == 0
            &&& part.calls.len() == 0
            &&& part.inherits.len() == 0
        }),
    decreases files.len(),
{
    if files.len() == 0 {
        reveal(Seq::filter);
    } else {
        let short = files.drop_last();
        let f = files.last();
        assert(files[files.len() - 1] == f);
        assert(in_its_file(f));
        lemma_apart_prefix(files);
        assert forall|i: int| 0 <= i < short.len() implies (#[trigger] short[i]).file
            != path by {
            assert(short[i] == files[i]);
        }
        lemma_no_part(short, path);
        let ix = index::merged(short);
        lemma_filter_concat(ix.definitions, f.definitions, save::definition_in(path));
        lemma_filter_concat(ix.references, f.references, save::reference_in(path));
        lemma_filter_concat(ix.calls, f.calls, save::call_in(path));
        lemma_filter_concat(ix.inherits, f.inherits, save::inherit_in(path));
        lemma_filter_none(f.definitions, save::definition_in(path));
        lemma_filter_none(f.references, save::reference_in(path));
        lemma_filter_none(f.calls, save::call_in(path));
        lemma_filter_none(f.inherits, save::inherit_in(path));
    }
}

/// Resolving references neither moves them nor changes what is hashed of them.
proof fn lemma_resolved_bytes(
    definitions: Seq<DefinitionView>,
    references: Seq<ReferenceView>,
    path: Seq<char>,
)
    ensures
        checksum::references_bytes(
            references.map_values(|r: ReferenceView| index::resolved(definitions, r)).filter(
                save::reference_in(path),
            ),
        ) == checksum::references_bytes(references.filter(save::reference_in(path))),
    decreases references.len(),
{
    reveal(Seq::filter);
    if references.len() > 0 {
        let all = references.map_values(|r: ReferenceView| index::resolved(definitions, r));
        let short = references.drop_last();
        assert(all.drop_last() =~= short.map_values(
            |r: ReferenceView| index::resolved(definitions, r),
        ));
        lemma_resolved_bytes(definitions, short, path);
        let r = references.last();
        let s = all.last();
        assert(checksum::reference_bytes(r) == checksum::reference_bytes(s));
        let p = save::reference_in(path);
        if r.location.file == path {
            assert(short.filter(p).push(r).drop_last() =~= short.filter(p));
            assert(all.drop_last().filter(p).push(s).drop_last() =~= all.drop_last().filter(p));
        }
    }
}

/// An index that was built from files lists them in their order, and the fingerprint that it
/// computes for each is the one of the symbols that were added, whether or not its references
/// were resolved before.
pub proof fn law_fingerprints_agree(files: Seq<FileSymbolsView>, j: int)
    requires
        apart(files),
        0 <= j < files.len(),
    ensures
        ({
            let ix = index::with_references_resolved(index::merged(files));
            &&& ix.files.len() == files.len()
            &&& ix.files[j].path == files[j].file
            &&& checksum::symbols_checksum(save::file_part(ix, ix.files[j].path))
                == checksum::symbols_checksum(files[j])
        }),
{
    lemma_merged_files(files, j);
    lemma_part_of_file(files, j);
    let raw = index::merged(files);
    lemma_resolved_bytes(raw.definitions, raw.references, files[j].file);
}

proof fn lemma_merged_files(files: Seq<FileSymbolsView>, j: int)
    requires
        0 <= j < files.len(),
    ensures
        index::merged(files).files.len() == files.len(),
        index::merged(files).files[j].path == files[j].file,
    decreases files.len(),
{
    let short = files.drop_last();
    if short.len() > 0 {
        lemma_merged_files(short, 0);
        if j < short.len() {
            lemma_merged_files(short, j);
        }
    } else {
        assert(index::merged(short) == index::empty_index());
    }
}

/// The symbols of streamed files.
pub open spec fn symbols_of(files: Seq<StreamedFileView>) -> Seq<FileSymbolsView> {
    files.map_values(|f: StreamedFileView| f.symbols)
}

/// Streamed files are collected as files that are added one after the other.
proof fn lemma_collected(files: Seq<StreamedFileView>)
    ensures
        ({
            let a = collected(files);
            let b = index::merged(symbols_of(files));
            a.definitions == b.definitions && a.references == b.references && a.calls == b.calls
                && a.inherits == b.inherits
        }),
    decreases files.len(),
{
    if files.len() > 0 {
        lemma_collected(files.drop_last());
        assert(symbols_of(files).drop_last() =~= symbols_of(files.drop_last()));
    }
}

/// The fingerprint that the index computes for a streamed file is the one that was taken when the
/// file was parsed.
pub proof fn law_streamed_fingerprints_agree(files: Seq<StreamedFileView>, j: int)
    requires
        in_order(files),
        0 <= j < files.len(),
    ensures
        checksum::symbols_checksum(
            save::file_part(index::with_references_resolved(collected(files)), files[j].symbols.file),
        ) == checksum::symbols_checksum(files[j].symbols),
{
    let all = symbols_of(files);
    assert forall|i: int| 0 <= i < all.len() implies in_its_file(#[trigger] all[i]) by {
        assert(freshly_parsed(files[i].symbols));
    }
    assert forall|i: int, k: int| 0 <= i < k < all.len() implies (#[trigger] all[i]).file != (
    #[trigger] all[k]).file by {
        assert(files[i].symbols.file != files[k].symbols.file);
    }
    lemma_collected(files);
    law_fingerprints_agree(all, j);
}

} // verus!
