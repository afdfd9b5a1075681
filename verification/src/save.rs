//! Turns an index into the rows that store it.
use crate::checksum::{
    FNV_OFFSET, fingerprint_of, hash_call, hash_definition, hash_inherit, hash_reference,
};
use crate::checksum;
use crate::index::{Index, IndexView};
use crate::index;
use crate::lookup::NameLookup;
use crate::rows::{
    CallRow, CallRowView, DefinitionRow, DefinitionRowView, FileRow, FileRowView, InheritRow,
    InheritRowView, RefRow, RefRowView, Tables, TablesView,
};
use crate::text;
use crate::types::{
    CallEdge, CallEdgeView, DefId, Definition, DefinitionView, FileSymbolsView, IndexedFile,
    IndexedFileView, InheritEdge, InheritEdgeView, Reference, ReferenceView, copy_opt,
};
use vstd::prelude::*;

verus! {

/// The paths of files.
pub open spec fn paths(files: Seq<IndexedFileView>) -> Seq<Seq<char>> {
    files.map_values(|f: IndexedFileView| f.path)
}

/// The row number of the file at a path: files are numbered from one in their order.
pub open spec fn file_number(files: Seq<IndexedFileView>, path: Seq<char>) -> Option<i64> {
    let at = index::spots(paths(files), path);
    if at.len() > 0 {
        Some((at.last() + 1) as i64)
    } else {
        None
    }
}

/// The row number of a definition: definitions are numbered from one in their order.
pub open spec fn definition_number(id: Option<DefId>) -> Option<i64> {
    match id {
        Some(id) => Some((id.0 + 1) as i64),
        None => None,
    }
}

/// The row number of the definition that a name resolves to.
pub open spec fn number_of(definitions: Seq<DefinitionView>, name: Seq<char>) -> Option<i64> {
    definition_number(index::resolution(definitions, name))
}

/// The row number of the definition that an end of a call or of an inheritance edge is linked
/// to: the last one with the name as its qualified name; where none has it so, the only one with
/// it as its simple name.
pub open spec fn link_of(definitions: Seq<DefinitionView>, name: Seq<char>) -> Option<i64> {
    definition_number(index::linked_to(definitions, name))
}

/// A truth value as the database stores it.
pub open spec fn stored_bool(b: bool) -> i64 {
    if b {
        1
    } else {
        0
    }
}

/// The row of a definition.
pub open spec fn definition_row(
    id: i64,
    file_id: Option<i64>,
    d: DefinitionView,
) -> DefinitionRowView {
    DefinitionRowView {
        id,
        name: d.name,
        qualified_name: d.qualified_name,
        kind: d.kind.name(),
        file_id,
        line: d.location.line as i64,
        column: d.location.column as i64,
        end_line: d.location.end_line as i64,
        end_column: d.location.end_column as i64,
        parent_name: d.parent,
        signature: d.signature,
        visibility: d.visibility.name(),
        is_definition: stored_bool(d.is_definition),
        extra: d.extra,
    }
}

/// The row of a reference.
pub open spec fn ref_row(
    id: i64,
    file_id: Option<i64>,
    def_id: Option<i64>,
    r: ReferenceView,
) -> RefRowView {
    RefRowView {
        id,
        name: r.name,
        kind: r.kind.name(),
        file_id,
        line: r.location.line as i64,
        column: r.location.column as i64,
        def_id,
        context: r.context,
    }
}

/// The row of a call.
pub open spec fn call_row(
    id: i64,
    file_id: Option<i64>,
    caller_id: Option<i64>,
    callee_id: Option<i64>,
    c: CallEdgeView,
) -> CallRowView {
    CallRowView {
        id,
        caller_id,
        callee_id,
        caller_name: c.caller_name,
        callee_name: c.callee_name,
        file_id,
        line: c.location.line as i64,
        column: c.location.column as i64,
    }
}

/// The row of an inheritance edge.
pub open spec fn inherit_row(
    id: i64,
    file_id: Option<i64>,
    derived_id: Option<i64>,
    base_id: Option<i64>,
    e: InheritEdgeView,
) -> InheritRowView {
    InheritRowView {
        id,
        derived_id,
        base_id,
        file_id,
        derived_name: e.derived_name,
        base_name: e.base_name,
        access: e.access.name(),
        is_virtual: stored_bool(e.is_virtual),
    }
}

/// A truth value as the database stores it.
pub fn store_bool(b: bool) -> (r: i64)
    ensures
        r == stored_bool(b),
{
    if b {
        1
    } else {
        0
    }
}

/// The row of a definition.
pub fn make_definition_row(id: i64, file_id: Option<i64>, d: &Definition) -> (r: DefinitionRow)
    ensures
        r@ == definition_row(id, file_id, d@),
{
    DefinitionRow {
        id,
        name: d.name.clone(),
        qualified_name: d.qualified_name.clone(),
        kind: d.kind.as_str().to_owned(),
        file_id,
        line: d.location.line as i64,
        column: d.location.column as i64,
        end_line: d.location.end_line as i64,
        end_column: d.location.end_column as i64,
        parent_name: copy_opt(&d.parent),
        signature: copy_opt(&d.signature),
        visibility: d.visibility.as_str().to_owned(),
        is_definition: store_bool(d.is_definition),
        extra: copy_opt(&d.extra),
    }
}

/// The row of a reference.
pub fn make_ref_row(id: i64, file_id: Option<i64>, def_id: Option<i64>, r: &Reference) -> (row:
    RefRow)
    ensures
        row@ == ref_row(id, file_id, def_id, r@),
{
    RefRow {
        id,
        name: r.name.clone(),
        kind: r.kind.as_str().to_owned(),
        file_id,
        line: r.location.line as i64,
        column: r.location.column as i64,
        def_id,
        context: copy_opt(&r.context),
    }
}

/// The row of a call.
pub fn make_call_row(
    id: i64,
    file_id: Option<i64>,
    caller_id: Option<i64>,
    callee_id: Option<i64>,
    c: &CallEdge,
) -> (r: CallRow)
    ensures
        r@ == call_row(id, file_id, caller_id, callee_id, c@),
{
    CallRow {
        id,
        caller_id,
        callee_id,
        caller_name: c.caller_name.clone(),
        callee_name: c.callee_name.clone(),
        file_id,
        line: c.location.line as i64,
        column: c.location.column as i64,
    }
}

/// The row of an inheritance edge.
pub fn make_inherit_row(
    id: i64,
    file_id: Option<i64>,
    derived_id: Option<i64>,
    base_id: Option<i64>,
    e: &InheritEdge,
) -> (r: InheritRow)
    ensures
        r@ == inherit_row(id, file_id, derived_id, base_id, e@),
{
    InheritRow {
        id,
        derived_id,
        base_id,
        file_id,
        derived_name: e.derived_name.clone(),
        base_name: e.base_name.clone(),
        access: e.access.as_str().to_owned(),
        is_virtual: store_bool(e.is_virtual),
    }
}

/// Tells the definitions that stand in a file.
pub open spec fn definition_in(path: Seq<char>) -> spec_fn(DefinitionView) -> bool {
    |d: DefinitionView| d.location.file == path
}

/// Tells the references that stand in a file.
pub open spec fn reference_in(path: Seq<char>) -> spec_fn(ReferenceView) -> bool {
    |r: ReferenceView| r.location.file == path
}

/// Tells the calls that stand in a file.
pub open spec fn call_in(path: Seq<char>) -> spec_fn(CallEdgeView) -> bool {
    |c: CallEdgeView| c.location.file == path
}

/// Tells the inheritance edges that stand in a file.
pub open spec fn inherit_in(path: Seq<char>) -> spec_fn(InheritEdgeView) -> bool {
    |e: InheritEdgeView| e.location.file == path
}

/// What an index holds of the file at a path.
pub open spec fn file_part(ix: IndexView, path: Seq<char>) -> FileSymbolsView {
    FileSymbolsView {
        file: path,
        language: Seq::empty(),
        definitions: ix.definitions.filter(definition_in(path)),
        references: ix.references.filter(reference_in(path)),
        calls: ix.calls.filter(call_in(path)),
        inherits: ix.inherits.filter(inherit_in(path)),
    }
}

/// The value where there is one, else another.
pub open spec fn first_of<T>(a: Option<T>, b: Option<T>) -> Option<T> {
    if a is Some {
        a
    } else {
        b
    }
}

/// The row of a file. A checksum that the index lacks is that of the content, where it could be
/// read; a fingerprint that it lacks is computed over the symbols of the file.
pub open spec fn saved_file(
    ix: IndexView,
    contents: Seq<Option<Seq<char>>>,
    i: int,
) -> FileRowView {
    let f = ix.files[i];
    FileRowView {
        id: (i + 1) as i64,
        path: f.path,
        language: f.language,
        checksum: first_of(f.checksum, contents[i]),
        symbols_checksum: first_of(
            f.symbols_checksum,
            Some(checksum::symbols_checksum(file_part(ix, f.path))),
        ),
    }
}

/// The row of a definition of an index.
pub open spec fn saved_definition(ix: IndexView, i: int) -> DefinitionRowView {
    let d = ix.definitions[i];
    definition_row((i + 1) as i64, file_number(ix.files, d.location.file), d)
}

/// The row of a reference of an index: a definition that the index does not hold is not linked.
pub open spec fn saved_ref(ix: IndexView, i: int) -> RefRowView {
    let r = ix.references[i];
    let def_id = match r.def_id {
        Some(id) if id.0 < ix.definitions.len() => definition_number(Some(id)),
        _ => None,
    };
    ref_row((i + 1) as i64, file_number(ix.files, r.location.file), def_id, r)
}

/// The row of a call of an index, linked to what its names stand for.
pub open spec fn saved_call(ix: IndexView, i: int) -> CallRowView {
    let c = ix.calls[i];
    call_row(
        (i + 1) as i64,
        file_number(ix.files, c.location.file),
        link_of(ix.definitions, c.caller_name),
        link_of(ix.definitions, c.callee_name),
        c,
    )
}

/// The row of an inheritance edge of an index, linked to what its names stand for. It belongs
/// to the file that it stands in, else to that of the derived class.
pub open spec fn saved_inherit(ix: IndexView, i: int) -> InheritRowView {
    let e = ix.inherits[i];
    let derived = index::linked_to(ix.definitions, e.derived_name);
    let of_derived = match derived {
        Some(id) => file_number(ix.files, ix.definitions[id.0 as int].location.file),
        None => None,
    };
    inherit_row(
        (i + 1) as i64,
        first_of(file_number(ix.files, e.location.file), of_derived),
        definition_number(derived),
        link_of(ix.definitions, e.base_name),
        e,
    )
}

/// The tables that store an index. `contents` holds, for each file, the checksum of its content
/// where it could be read.
pub open spec fn saved(ix: IndexView, contents: Seq<Option<Seq<char>>>) -> TablesView {
    TablesView {
        files: Seq::new(ix.files.len(), |i: int| saved_file(ix, contents, i)),
        definitions: Seq::new(ix.definitions.len(), |i: int| saved_definition(ix, i)),
        refs: Seq::new(ix.references.len(), |i: int| saved_ref(ix, i)),
        calls: Seq::new(ix.calls.len(), |i: int| saved_call(ix, i)),
        inherits: Seq::new(ix.inherits.len(), |i: int| saved_inherit(ix, i)),
    }
}

/// The hash over what an index holds of the file at a path.
pub open spec fn part_hash(ix: IndexView, path: Seq<char>) -> u64 {
    checksum::fnv(FNV_OFFSET, checksum::symbols_bytes(file_part(ix, path)))
}

/// One more definition is hashed where it stands in the file, and changes nothing elsewhere.
proof fn lemma_hash_definition(files: Seq<IndexedFileView>, s: Seq<DefinitionView>, d: DefinitionView, path: Seq<char>)
    ensures
        ({
            let before = only_definitions(files, s);
            let after = only_definitions(files, s.push(d));
            part_hash(after, path) == if d.location.file == path {
                checksum::fnv(part_hash(before, path), checksum::definition_bytes(d))
            } else {
                part_hash(before, path)
            }
        }),
{
    reveal(Seq::filter);
    assert(s.push(d).drop_last() =~= s);
    let kept = s.filter(definition_in(path));
    if d.location.file == path {
        assert(kept.push(d).drop_last() =~= kept);
        let b = checksum::symbols_bytes(file_part(only_definitions(files, s), path));
        checksum::lemma_fnv_concat(FNV_OFFSET, b, checksum::definition_bytes(d));
        assert(b + checksum::definition_bytes(d) =~= checksum::symbols_bytes(
            file_part(only_definitions(files, s.push(d)), path),
        ));
    }
}

/// The definitions of an index alone.
spec fn only_definitions(files: Seq<IndexedFileView>, s: Seq<DefinitionView>) -> IndexView {
    IndexView {
        files,
        definitions: s,
        references: Seq::empty(),
        calls: Seq::empty(),
        inherits: Seq::empty(),
    }
}

/// One more reference is hashed where it stands in the file, and changes nothing elsewhere.
proof fn lemma_hash_reference(ix: IndexView, r: ReferenceView, path: Seq<char>)
    requires
        ix.calls.len() == 0,
        ix.inherits.len() == 0,
    ensures
        part_hash(IndexView { references: ix.references.push(r), ..ix }, path) == if r.location.file
            == path {
            checksum::fnv(part_hash(ix, path), checksum::reference_bytes(r))
        } else {
            part_hash(ix, path)
        },
{
    reveal(Seq::filter);
    let after = IndexView { references: ix.references.push(r), ..ix };
    assert(after.references.drop_last() =~= ix.references);
    let kept = ix.references.filter(reference_in(path));
    if r.location.file == path {
        assert(kept.push(r).drop_last() =~= kept);
        let b = checksum::symbols_bytes(file_part(ix, path));
        checksum::lemma_fnv_concat(FNV_OFFSET, b, checksum::reference_bytes(r));
        assert(b + checksum::reference_bytes(r) =~= checksum::symbols_bytes(
            file_part(after, path),
        ));
    }
}

/// One more call is hashed where it stands in the file, and changes nothing elsewhere.
proof fn lemma_hash_call(ix: IndexView, c: CallEdgeView, path: Seq<char>)
    requires
        ix.inherits.len() == 0,
    ensures
        part_hash(IndexView { calls: ix.calls.push(c), ..ix }, path) == if c.location.file == path {
            checksum::fnv(part_hash(ix, path), checksum::call_bytes(c))
        } else {
            part_hash(ix, path)
        },
{
    reveal(Seq::filter);
    let after = IndexView { calls: ix.calls.push(c), ..ix };
    assert(after.calls.drop_last() =~= ix.calls);
    let kept = ix.calls.filter(call_in(path));
    if c.location.file == path {
        assert(kept.push(c).drop_last() =~= kept);
        let b = checksum::symbols_bytes(file_part(ix, path));
        checksum::lemma_fnv_concat(FNV_OFFSET, b, checksum::call_bytes(c));
        assert(b + checksum::call_bytes(c) =~= checksum::symbols_bytes(file_part(after, path)));
    }
}

/// One more inheritance edge is hashed where it stands in the file, and changes nothing
/// elsewhere.
proof fn lemma_hash_inherit(ix: IndexView, e: InheritEdgeView, path: Seq<char>)
    ensures
        part_hash(IndexView { inherits: ix.inherits.push(e), ..ix }, path) == if e.location.file
            == path {
            checksum::fnv(part_hash(ix, path), checksum::inherit_bytes(e))
        } else {
            part_hash(ix, path)
        },
{
    reveal(Seq::filter);
    let after = IndexView { inherits: ix.inherits.push(e), ..ix };
    assert(after.inherits.drop_last() =~= ix.inherits);
    let kept = ix.inherits.filter(inherit_in(path));
    if e.location.file == path {
        assert(kept.push(e).drop_last() =~= kept);
        let b = checksum::symbols_bytes(file_part(ix, path));
        checksum::lemma_fnv_concat(FNV_OFFSET, b, checksum::inherit_bytes(e));
        assert(b + checksum::inherit_bytes(e) =~= checksum::symbols_bytes(file_part(after, path)));
    }
}

/// The files of an index, found by their paths.
struct FileNumbers {
    by_path: NameLookup,
}

/// Whether a file is the first with its path.
spec fn is_first(keys: Seq<Seq<char>>, k: int) -> bool {
    0 <= k < keys.len() && index::spots(keys, keys[k])[0] == k
}

impl FileNumbers {
    spec fn of(self, files: Seq<IndexedFileView>) -> bool {
        forall|p: Seq<char>| #[trigger] self.by_path.at(p) == index::spots(paths(files), p)
    }

    /// Finds files by their paths.
    fn new(files: &[IndexedFile]) -> (r: Self)
        ensures
            r.of(text::views(files@)),
    {
        let ghost keys = paths(text::views(files@));
        let mut by_path = NameLookup::new();
        let mut i: usize = 0;
        while i < files.len()
            invariant
                keys == paths(text::views(files@)),
                i <= files@.len(),
                forall|p: Seq<char>| #[trigger] by_path.at(p) == index::spots(keys.take(i as int), p),
            decreases files@.len() - i,
        {
            by_path.add(&files[i].path, i);
            proof {
                assert(keys.take(i + 1).drop_last() =~= keys.take(i as int));
                assert(keys.take(i + 1).last() == files@[i as int].path@);
            }
            i = i + 1;
        }
        assert(keys.take(i as int) =~= keys);
        FileNumbers { by_path }
    }

    /// The row number of the file at a path.
    fn number(&self, path: &str, files: Ghost<Seq<IndexedFileView>>) -> (r: Option<i64>)
        requires
            self.of(files@),
            files@.len() < i64::MAX,
            files@.len() <= usize::MAX,
        ensures
            r == file_number(files@, path@),
    {
        proof {
            index::lemma_spots(paths(files@), path@);
        }
        match self.by_path.get(path) {
            Some(at) => {
                let n = at.len();
                if n > 0 {
                    assert(index::spots(paths(files@), path@)[n - 1] < files@.len());
                    Some(at[n - 1] as i64 + 1)
                } else {
                    None
                }
            },
            None => None,
        }
    }

    /// The position of the first file at a path.
    fn first(&self, path: &str, files: Ghost<Seq<IndexedFileView>>) -> (r: Option<usize>)
        requires
            self.of(files@),
            files@.len() <= usize::MAX,
        ensures
            match r {
                Some(k) => {
                    let at = index::spots(paths(files@), path@);
                    &&& at.len() > 0
                    &&& k == at[0]
                    &&& k < files@.len()
                    &&& files@[k as int].path == path@
                },
                None => index::spots(paths(files@), path@).len() == 0,
            },
    {
        proof {
            index::lemma_spots(paths(files@), path@);
        }
        match self.by_path.get(path) {
            Some(at) => if at.len() > 0 {
                assert(paths(files@)[index::spots(paths(files@), path@)[0] as int] == path@);
                Some(at[0])
            } else {
                None
            },
            None => None,
        }
    }
}

/// Whether the hash at the first file with each path is that over a part of an index.
spec fn hashed(hashes: Seq<u64>, ix: IndexView) -> bool {
    &&& hashes.len() == ix.files.len()
    &&& forall|k: int| is_first(paths(ix.files), k) ==> (#[trigger] hashes[k]) == part_hash(
        ix,
        ix.files[k].path,
    )
}

/// After a symbol in one file was hashed, the hashes are right for the index with it.
proof fn lemma_hashed(
    before: Seq<u64>,
    after: Seq<u64>,
    ix: IndexView,
    next: IndexView,
    path: Seq<char>,
    bytes: Seq<u8>,
)
    requires
        hashed(before, ix),
        next.files == ix.files,
        ix.files.len() <= usize::MAX,
        forall|p: Seq<char>| #[trigger] part_hash(next, p) == if p == path {
            checksum::fnv(part_hash(ix, p), bytes)
        } else {
            part_hash(ix, p)
        },
        ({
            let at = index::spots(paths(ix.files), path);
            if at.len() > 0 {
                after == before.update(at[0] as int, checksum::fnv(before[at[0] as int], bytes))
            } else {
                after == before
            }
        }),
    ensures
        hashed(after, next),
{
    let keys = paths(ix.files);
    let at = index::spots(keys, path);
    index::lemma_spots(keys, path);
    assert forall|k: int| is_first(keys, k) implies (#[trigger] after[k]) == part_hash(
        next,
        ix.files[k].path,
    ) by {
        assert(keys[k] == ix.files[k].path);
        assert(before[k] == part_hash(ix, ix.files[k].path));
        if at.len() > 0 {
            assert(keys[at[0] as int] == path);
            if k == at[0] {
                assert(ix.files[k].path == path);
            } else if keys[k] == path {
                assert(at.contains(k as usize));
            }
        } else if keys[k] == path {
            assert(at.contains(k as usize));
        }
    }
}

/// The fingerprint over what an index holds of each of its files.
pub fn index_symbol_checksums(index: &Index) -> (r: Vec<String>)
    ensures
        r@.len() == index@.files.len(),
        forall|i: int|
            0 <= i < r@.len() ==> (#[trigger] r@[i])@ == checksum::symbols_checksum(
                file_part(index@, index@.files[i].path),
            ),
{
    let files = index.files();
    let ghost ix = index@;
    let numbers = FileNumbers::new(files);
    let mut hashes: Vec<u64> = Vec::new();
    let mut i: usize = 0;
    let ghost mut part = only_definitions(ix.files, Seq::empty());
    while i < files.len()
        invariant
            ix == index@,
            text::views(files@) == ix.files,
            i <= files@.len(),
            hashes@.len() == i,
            forall|k: int| 0 <= k < i ==> hashes@[k] == FNV_OFFSET,
        decreases files@.len() - i,
    {
        hashes.push(FNV_OFFSET);
        i = i + 1;
    }
    proof {
        reveal(Seq::filter);
        assert forall|p: Seq<char>| #[trigger] part_hash(part, p) == FNV_OFFSET by {
            assert(checksum::symbols_bytes(file_part(part, p)) =~= Seq::<u8>::empty());
        }
    }
    let definitions = index.definitions();
    i = 0;
    assert(ix.definitions.take(0) =~= Seq::empty());
    while i < definitions.len()
        invariant
            ix == index@,
            text::views(files@) == ix.files,
            files@.len() == files.len(),
            numbers.of(ix.files),
            text::views(definitions@) == ix.definitions,
            i <= definitions@.len(),
            part == only_definitions(ix.files, ix.definitions.take(i as int)),
            hashed(hashes@, part),
        decreases definitions@.len() - i,
    {
        let d = &definitions[i];
        let ghost before = hashes@;
        let ghost next = only_definitions(ix.files, ix.definitions.take(i + 1));
        if let Some(k) = numbers.first(d.location.file.as_str(), Ghost(ix.files)) {
            let mut h: u64 = hashes[k];
            hash_definition(&mut h, d);
            hashes.set(k, h);
        }
        proof {
            assert(ix.definitions.take(i + 1) =~= ix.definitions.take(i as int).push(d@));
            assert forall|p: Seq<char>| #[trigger] part_hash(next, p) == if p == d.location.file@ {
                checksum::fnv(part_hash(part, p), checksum::definition_bytes(d@))
            } else {
                part_hash(part, p)
            } by {
                lemma_hash_definition(ix.files, ix.definitions.take(i as int), d@, p);
            }
            lemma_hashed(
                before,
                hashes@,
                part,
                next,
                d.location.file@,
                checksum::definition_bytes(d@),
            );
            part = next;
        }
        i = i + 1;
    }
    assert(ix.definitions.take(i as int) =~= ix.definitions);
    let references = index.references();
    i = 0;
    assert(ix.references.take(0) =~= Seq::empty());
    while i < references.len()
        invariant
            ix == index@,
            text::views(files@) == ix.files,
            files@.len() == files.len(),
            numbers.of(ix.files),
            text::views(references@) == ix.references,
            i <= references@.len(),
            part.files == ix.files,
            part.definitions == ix.definitions,
            part.references == ix.references.take(i as int),
            part.calls.len() == 0,
            part.inherits.len() == 0,
            hashed(hashes@, part),
        decreases references@.len() - i,
    {
        let r = &references[i];
        let ghost before = hashes@;
        let ghost next = IndexView { references: part.references.push(r@), ..part };
        if let Some(k) = numbers.first(r.location.file.as_str(), Ghost(ix.files)) {
            let mut h: u64 = hashes[k];
            hash_reference(&mut h, r);
            hashes.set(k, h);
        }
        proof {
            assert(ix.references.take(i + 1) =~= ix.references.take(i as int).push(r@));
            assert forall|p: Seq<char>| #[trigger] part_hash(next, p) == if p == r.location.file@ {
                checksum::fnv(part_hash(part, p), checksum::reference_bytes(r@))
            } else {
                part_hash(part, p)
            } by {
                lemma_hash_reference(part, r@, p);
            }
            lemma_hashed(
                before,
                hashes@,
                part,
                next,
                r.location.file@,
                checksum::reference_bytes(r@),
            );
            part = next;
        }
        i = i + 1;
    }
    assert(ix.references.take(i as int) =~= ix.references);
    let calls = index.calls();
    i = 0;
    assert(part.calls =~= ix.calls.take(0));
    while i < calls.len()
        invariant
            ix == index@,
            text::views(files@) == ix.files,
            files@.len() == files.len(),
            numbers.of(ix.files),
            text::views(calls@) == ix.calls,
            i <= calls@.len(),
            part.files == ix.files,
            part.definitions == ix.definitions,
            part.references == ix.references,
            part.calls == ix.calls.take(i as int),
            part.inherits.len() == 0,
            hashed(hashes@, part),
        decreases calls@.len() - i,
    {
        let c = &calls[i];
        let ghost before = hashes@;
        let ghost next = IndexView { calls: part.calls.push(c@), ..part };
        if let Some(k) = numbers.first(c.location.file.as_str(), Ghost(ix.files)) {
            let mut h: u64 = hashes[k];
            hash_call(&mut h, c);
            hashes.set(k, h);
        }
        proof {
            assert(ix.calls.take(i + 1) =~= ix.calls.take(i as int).push(c@));
            assert forall|p: Seq<char>| #[trigger] part_hash(next, p) == if p == c.location.file@ {
                checksum::fnv(part_hash(part, p), checksum::call_bytes(c@))
            } else {
                part_hash(part, p)
            } by {
                lemma_hash_call(part, c@, p);
            }
            lemma_hashed(before, hashes@, part, next, c.location.file@, checksum::call_bytes(c@));
            part = next;
        }
        i = i + 1;
    }
    assert(ix.calls.take(i as int) =~= ix.calls);
    let inherits = index.inherits();
    i = 0;
    assert(part.inherits =~= ix.inherits.take(0));
    while i < inherits.len()
        invariant
            ix == index@,
            text::views(files@) == ix.files,
            files@.len() == files.len(),
            numbers.of(ix.files),
            text::views(inherits@) == ix.inherits,
            i <= inherits@.len(),
            part.files == ix.files,
            part.definitions == ix.definitions,
            part.references == ix.references,
            part.calls == ix.calls,
            part.inherits == ix.inherits.take(i as int),
            hashed(hashes@, part),
        decreases inherits@.len() - i,
    {
        let e = &inherits[i];
        let ghost before = hashes@;
        let ghost next = IndexView { inherits: part.inherits.push(e@), ..part };
        if let Some(k) = numbers.first(e.location.file.as_str(), Ghost(ix.files)) {
            let mut h: u64 = hashes[k];
            hash_inherit(&mut h, e);
            hashes.set(k, h);
        }
        proof {
            assert(ix.inherits.take(i + 1) =~= ix.inherits.take(i as int).push(e@));
            assert forall|p: Seq<char>| #[trigger] part_hash(next, p) == if p == e.location.file@ {
                checksum::fnv(part_hash(part, p), checksum::inherit_bytes(e@))
            } else {
                part_hash(part, p)
            } by {
                lemma_hash_inherit(part, e@, p);
            }
            lemma_hashed(before, hashes@, part, next, e.location.file@, checksum::inherit_bytes(e@));
            part = next;
        }
        i = i + 1;
    }
    assert(ix.inherits.take(i as int) =~= ix.inherits);
    let mut r: Vec<String> = Vec::new();
    i = 0;
    while i < files.len()
        invariant
            ix == index@,
            text::views(files@) == ix.files,
            files@.len() == files.len(),
            numbers.of(ix.files),
            hashed(hashes@, ix),
            i <= files@.len(),
            r@.len() == i,
            forall|k: int|
                0 <= k < i ==> (#[trigger] r@[k])@ == checksum::symbols_checksum(
                    file_part(ix, ix.files[k].path),
                ),
        decreases files@.len() - i,
    {
        let first = numbers.first(files[i].path.as_str(), Ghost(ix.files));
        proof {
            index::lemma_spots(paths(ix.files), files@[i as int].path@);
            assert(paths(ix.files)[i as int] == files@[i as int].path@);
            assert(index::spots(paths(ix.files), files@[i as int].path@).contains(i));
        }
        if let Some(k) = first {
            r.push(fingerprint_of(hashes[k]));
        }
        i = i + 1;
    }
    r
}

/// Whether the rows of an index can be numbered.
pub open spec fn fits(ix: IndexView) -> bool {
    &&& ix.files.len() < i64::MAX
    &&& ix.definitions.len() < i64::MAX
    &&& ix.references.len() < i64::MAX
    &&& ix.calls.len() < i64::MAX
    &&& ix.inherits.len() < i64::MAX
}

/// Whether the rows of an index can be numbered.
pub fn can_save(index: &Index) -> (r: bool)
    ensures
        r == fits(index@),
{
    let files = index.files();
    let calls = index.calls();
    let inherits = index.inherits();
    proof {
        assert(text::views(files@).len() == files@.len());
        assert(text::views(calls@).len() == calls@.len());
        assert(text::views(inherits@).len() == inherits@.len());
    }
    let most: u64 = i64::MAX as u64;
    (files.len() as u64) < most && (index.definition_count() as u64) < most && (
    index.reference_count() as u64) < most && (calls.len() as u64) < most && (inherits.len() as u64)
        < most
}

/// The row number of the definition that an end of a call or of an inheritance edge is linked
/// to.
fn link_of_name(index: &Index, name: &str) -> (r: Option<i64>)
    requires
        fits(index@),
    ensures
        r == link_of(index@.definitions, name@),
{
    let id = index.link_name(name);
    let n = index.definition_count();
    proof {
        index::lemma_linked_to(index@.definitions, name@);
    }
    match id {
        Some(id) => Some(id.0 as i64 + 1),
        None => None,
    }
}

/// The rows of the files of an index.
fn save_files(index: &Index, contents: &Vec<Option<String>>) -> (r: Vec<FileRow>)
    requires
        fits(index@),
        contents@.len() == index@.files.len(),
    ensures
        text::views(r@) == saved(index@, contents@.map_values(|c: Option<String>| text::view_opt(c))).files,
{
    let files = index.files();
    let ghost ix = index@;
    let ghost found = contents@.map_values(|c: Option<String>| text::view_opt(c));
    let mut lacking = false;
    let mut i: usize = 0;
    while i < files.len()
        invariant
            i <= files@.len(),
            !lacking ==> forall|k: int| 0 <= k < i ==> (#[trigger] files@[k]).symbols_checksum is Some,
        decreases files@.len() - i,
    {
        if files[i].symbols_checksum.is_none() {
            lacking = true;
        }
        i = i + 1;
    }
    let computed: Vec<String> = if lacking {
        index_symbol_checksums(index)
    } else {
        Vec::new()
    };
    let mut r: Vec<FileRow> = Vec::new();
    i = 0;
    while i < files.len()
        invariant
            fits(ix),
            ix == index@,
            text::views(files@) == ix.files,
            contents@.len() == ix.files.len(),
            found == contents@.map_values(|c: Option<String>| text::view_opt(c)),
            !lacking ==> forall|k: int|
                0 <= k < files@.len() ==> (#[trigger] files@[k]).symbols_checksum is Some,
            lacking ==> computed@.len() == files@.len() && forall|k: int|
                0 <= k < files@.len() ==> (#[trigger] computed@[k])@ == checksum::symbols_checksum(
                    file_part(ix, ix.files[k].path),
                ),
            i <= files@.len(),
            r@.len() == i,
            forall|k: int| 0 <= k < i ==> (#[trigger] r@[k])@ == saved_file(ix, found, k),
        decreases files@.len() - i,
    {
        let f = &files[i];
        assert(ix.files[i as int] == f@);
        assert(found[i as int] == text::view_opt(contents@[i as int]));
        let content: Option<String> = match &f.checksum {
            Some(c) => Some(c.clone()),
            None => copy_opt(&contents[i]),
        };
        let symbols: Option<String> = match &f.symbols_checksum {
            Some(c) => Some(c.clone()),
            None => Some(computed[i].clone()),
        };
        r.push(
            FileRow {
                id: i as i64 + 1,
                path: f.path.clone(),
                language: f.language.clone(),
                checksum: content,
                symbols_checksum: symbols,
            },
        );
        i = i + 1;
    }
    assert(text::views(r@) =~= saved(ix, found).files);
    r
}

/// The rows that store an index. `contents` holds, for each file, the checksum of its content
/// where it could be read; it counts only for a file whose checksum the index lacks.
pub fn save_rows(index: &Index, contents: &Vec<Option<String>>) -> (r: Tables)
    requires
        fits(index@),
        contents@.len() == index@.files.len(),
    ensures
        r@ == saved(index@, contents@.map_values(|c: Option<String>| text::view_opt(c))),
{
    let ghost ix = index@;
    let ghost found = contents@.map_values(|c: Option<String>| text::view_opt(c));
    let files = save_files(index, contents);
    let numbers = FileNumbers::new(index.files());
    let file_count = index.files().len();
    let mut i: usize = 0;

    let source = index.definitions();
    let mut definitions: Vec<DefinitionRow> = Vec::new();
    while i < source.len()
        invariant
            fits(ix),
            ix.files.len() == file_count,
            numbers.of(ix.files),
            text::views(source@) == ix.definitions,
            i <= source@.len(),
            definitions@.len() == i,
            forall|k: int| 0 <= k < i ==> (#[trigger] definitions@[k])@ == saved_definition(ix, k),
        decreases source@.len() - i,
    {
        let d = &source[i];
        assert(ix.definitions[i as int] == d@);
        let file_id = numbers.number(d.location.file.as_str(), Ghost(ix.files));
        definitions.push(make_definition_row(i as i64 + 1, file_id, d));
        i = i + 1;
    }

    let source = index.references();
    let definition_count = index.definition_count();
    let mut refs: Vec<RefRow> = Vec::new();
    i = 0;
    while i < source.len()
        invariant
            fits(ix),
            ix.files.len() == file_count,
            numbers.of(ix.files),
            definition_count == ix.definitions.len(),
            text::views(source@) == ix.references,
            i <= source@.len(),
            refs@.len() == i,
            forall|k: int| 0 <= k < i ==> (#[trigger] refs@[k])@ == saved_ref(ix, k),
        decreases source@.len() - i,
    {
        let x = &source[i];
        assert(ix.references[i as int] == x@);
        let file_id = numbers.number(x.location.file.as_str(), Ghost(ix.files));
        let def_id: Option<i64> = match x.def_id {
            Some(id) => if id.0 < definition_count {
                Some(id.0 as i64 + 1)
            } else {
                None
            },
            None => None,
        };
        refs.push(make_ref_row(i as i64 + 1, file_id, def_id, x));
        i = i + 1;
    }

    let source = index.calls();
    let mut calls: Vec<CallRow> = Vec::new();
    i = 0;
    while i < source.len()
        invariant
            fits(ix),
            ix == index@,
            ix.files.len() == file_count,
            numbers.of(ix.files),
            text::views(source@) == ix.calls,
            i <= source@.len(),
            calls@.len() == i,
            forall|k: int| 0 <= k < i ==> (#[trigger] calls@[k])@ == saved_call(ix, k),
        decreases source@.len() - i,
    {
        let c = &source[i];
        assert(ix.calls[i as int] == c@);
        let file_id = numbers.number(c.location.file.as_str(), Ghost(ix.files));
        let caller_id = link_of_name(index, c.caller_name.as_str());
        let callee_id = link_of_name(index, c.callee_name.as_str());
        calls.push(make_call_row(i as i64 + 1, file_id, caller_id, callee_id, c));
        i = i + 1;
    }

    let source = index.inherits();
    let mut inherits: Vec<InheritRow> = Vec::new();
    i = 0;
    while i < source.len()
        invariant
            fits(ix),
            ix == index@,
            ix.files.len() == file_count,
            numbers.of(ix.files),
            text::views(source@) == ix.inherits,
            i <= source@.len(),
            inherits@.len() == i,
            forall|k: int| 0 <= k < i ==> (#[trigger] inherits@[k])@ == saved_inherit(ix, k),
        decreases source@.len() - i,
    {
        let e = &source[i];
        assert(ix.inherits[i as int] == e@);
        let derived = index.link_name(e.derived_name.as_str());
        let count = index.definition_count();
        proof {
            index::lemma_linked_to(ix.definitions, e.derived_name@);
        }
        let derived_id: Option<i64> = match derived {
            Some(id) => Some(id.0 as i64 + 1),
            None => None,
        };
        let base_id = link_of_name(index, e.base_name.as_str());
        let own = numbers.number(e.location.file.as_str(), Ghost(ix.files));
        let file_id: Option<i64> = match own {
            Some(id) => Some(id),
            None => match derived {
                Some(id) => {
                    let d = index.resolve(id);
                    numbers.number(d.location.file.as_str(), Ghost(ix.files))
                },
                None => None,
            },
        };
        inherits.push(make_inherit_row(i as i64 + 1, file_id, derived_id, base_id, e));
        i = i + 1;
    }
    let r = Tables { files, definitions, refs, calls, inherits };
    proof {
        let wanted = saved(ix, found);
        assert(r@.definitions =~= wanted.definitions);
        assert(r@.refs =~= wanted.refs);
        assert(r@.calls =~= wanted.calls);
        assert(r@.inherits =~= wanted.inherits);
    }
    r
}

} // verus!
