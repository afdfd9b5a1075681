//! Writes parsed files one by one: files and definitions at once, everything that refers to a
//! definition when all of them are known.
use crate::index;
use crate::lookup::NameLookup;
use crate::rows::{
    CallRow, CallRowView, DefinitionRow, DefinitionRowView, FileRow, FileRowView, InheritRow,
    InheritRowView, RefRow, RefRowView,
};
use crate::save::{make_call_row, make_definition_row, make_inherit_row, make_ref_row};
use crate::save;
use crate::stream_order::{StreamedFileSymbols, StreamedFileView};
use crate::text;
use crate::types::{
    CallEdge, CallEdgeView, Definition, DefinitionView, InheritEdge, InheritEdgeView, Reference,
    ReferenceView,
};
use vstd::prelude::*;

verus! {

/// How many rows an update has inserted.
#[derive(Debug, Clone, Copy, PartialEq, Eq, Structural)]
pub struct IncrementalDbUpdate {
    pub definitions_inserted: usize,
    pub references_inserted: usize,
    pub calls_inserted: usize,
    pub inheritance_inserted: usize,
}

impl Default for IncrementalDbUpdate {
    fn default() -> (r: Self)
        ensures
            r == (IncrementalDbUpdate {
                definitions_inserted: 0,
                references_inserted: 0,
                calls_inserted: 0,
                inheritance_inserted: 0,
            }),
    {
        IncrementalDbUpdate {
            definitions_inserted: 0,
            references_inserted: 0,
            calls_inserted: 0,
            inheritance_inserted: 0,
        }
    }
}

/// How long the phases of a streamed write took.
#[derive(Debug, Clone, Copy, PartialEq, Eq, Structural)]
pub struct StreamedDbWriteMetrics {
    pub setup_ms: u128,
    pub streamed_files_and_definitions_ms: u128,
    pub pending_edges_ms: u128,
    pub commit_ms: u128,
    pub create_indexes_ms: u128,
    pub finalize_ms: u128,
    pub total_ms: u128,
}

/// A reference with the number of its file.
pub struct PendingReference {
    pub file_id: i64,
    pub reference: Reference,
}

impl View for PendingReference {
    type V = (i64, ReferenceView);

    open spec fn view(&self) -> (i64, ReferenceView) {
        (self.file_id, self.reference@)
    }
}

/// A call with the number of its file.
pub struct PendingCall {
    pub file_id: i64,
    pub call: CallEdge,
}

impl View for PendingCall {
    type V = (i64, CallEdgeView);

    open spec fn view(&self) -> (i64, CallEdgeView) {
        (self.file_id, self.call@)
    }
}

/// An inheritance edge with the number of its file.
pub struct PendingInherit {
    pub file_id: i64,
    pub inherit: InheritEdge,
}

impl View for PendingInherit {
    type V = (i64, InheritEdgeView);

    open spec fn view(&self) -> (i64, InheritEdgeView) {
        (self.file_id, self.inherit@)
    }
}

/// What was streamed so far: the definitions that were numbered, and all that waits for them,
/// each with the number of its file.
pub struct StreamView {
    pub definitions: Seq<DefinitionView>,
    pub references: Seq<(i64, ReferenceView)>,
    pub calls: Seq<(i64, CallEdgeView)>,
    pub inherits: Seq<(i64, InheritEdgeView)>,
}

/// Values with the number of their file.
pub open spec fn tagged<T>(file_id: i64, s: Seq<T>) -> Seq<(i64, T)> {
    s.map_values(|t: T| (file_id, t))
}

/// The number of a file: files are numbered from one in their order.
pub open spec fn streamed_number(f: StreamedFileView) -> i64 {
    (f.index + 1) as i64
}

/// Nothing was streamed yet.
pub open spec fn stream_start() -> StreamView {
    StreamView {
        definitions: Seq::empty(),
        references: Seq::empty(),
        calls: Seq::empty(),
        inherits: Seq::empty(),
    }
}

/// What was streamed after one more file.
pub open spec fn stream_step(s: StreamView, f: StreamedFileView) -> StreamView {
    let id = streamed_number(f);
    StreamView {
        definitions: s.definitions + f.symbols.definitions,
        references: s.references + tagged(id, f.symbols.references),
        calls: s.calls + tagged(id, f.symbols.calls),
        inherits: s.inherits + tagged(id, f.symbols.inherits),
    }
}

/// The row of a streamed file.
pub open spec fn streamed_file_row(f: StreamedFileView) -> FileRowView {
    FileRowView {
        id: streamed_number(f),
        path: f.symbols.file,
        language: f.symbols.language,
        checksum: Some(f.checksum),
        symbols_checksum: Some(f.symbols_checksum),
    }
}

/// The rows of the definitions of a streamed file, numbered behind those before it.
pub open spec fn streamed_definition_rows(s: StreamView, f: StreamedFileView) -> Seq<
    DefinitionRowView,
> {
    Seq::new(
        f.symbols.definitions.len(),
        |k: int|
            save::definition_row(
                (s.definitions.len() + k + 1) as i64,
                Some(streamed_number(f)),
                f.symbols.definitions[k],
            ),
    )
}

/// The rows of all references, linked to the definitions that their names resolve to.
pub open spec fn streamed_refs(s: StreamView) -> Seq<RefRowView> {
    Seq::new(
        s.references.len(),
        |k: int|
            save::ref_row(
                (k + 1) as i64,
                Some(s.references[k].0),
                save::number_of(s.definitions, s.references[k].1.name),
                s.references[k].1,
            ),
    )
}

/// The rows of all calls, linked to the definitions that their names stand for.
pub open spec fn streamed_calls(s: StreamView) -> Seq<CallRowView> {
    Seq::new(
        s.calls.len(),
        |k: int|
            save::call_row(
                (k + 1) as i64,
                Some(s.calls[k].0),
                save::link_of(s.definitions, s.calls[k].1.caller_name),
                save::link_of(s.definitions, s.calls[k].1.callee_name),
                s.calls[k].1,
            ),
    )
}

/// The rows of all inheritance edges, linked to the definitions that their names stand for.
pub open spec fn streamed_inherits(s: StreamView) -> Seq<InheritRowView> {
    Seq::new(
        s.inherits.len(),
        |k: int|
            save::inherit_row(
                (k + 1) as i64,
                Some(s.inherits[k].0),
                save::link_of(s.definitions, s.inherits[k].1.derived_name),
                save::link_of(s.definitions, s.inherits[k].1.base_name),
                s.inherits[k].1,
            ),
    )
}

/// Whether everything that was streamed can be counted and numbered.
pub open spec fn stream_fits(s: StreamView) -> bool {
    &&& s.definitions.len() < i64::MAX
    &&& s.definitions.len() <= usize::MAX
    &&& s.references.len() < i64::MAX
    &&& s.calls.len() < i64::MAX
    &&& s.inherits.len() < i64::MAX
}

/// The rows that are inserted when all files were streamed.
pub struct PendingRows {
    pub refs: Vec<RefRow>,
    pub calls: Vec<CallRow>,
    pub inherits: Vec<InheritRow>,
    pub metrics: IncrementalDbUpdate,
}

/// The state of a streamed write.
pub struct StreamInsertState {
    next_def_id: i64,
    qname_to_db_id: NameLookup,
    name_to_db_id: NameLookup,
    pending_refs: Vec<PendingReference>,
    pending_calls: Vec<PendingCall>,
    pending_inherits: Vec<PendingInherit>,
    numbered: Ghost<Seq<DefinitionView>>,
}

impl View for StreamInsertState {
    type V = StreamView;

    closed spec fn view(&self) -> StreamView {
        StreamView {
            definitions: self.numbered@,
            references: text::views(self.pending_refs@),
            calls: text::views(self.pending_calls@),
            inherits: text::views(self.pending_inherits@),
        }
    }
}

impl StreamInsertState {
    /// The lookups hold the definitions that were numbered.
    pub closed spec fn wf(self) -> bool {
        &&& self.numbered@.len() < i64::MAX
        &&& self.numbered@.len() <= usize::MAX
        &&& self.next_def_id == self.numbered@.len() + 1
        &&& forall|n: Seq<char>| #[trigger]
            self.name_to_db_id.at(n) == index::spots(index::names(self.numbered@), n)
        &&& forall|n: Seq<char>| #[trigger]
            self.qname_to_db_id.at(n) == index::spots(index::qualified_names(self.numbered@), n)
    }

    /// The state before anything was streamed.
    pub fn new() -> (r: Self)
        ensures
            r.wf(),
            r@ == stream_start(),
    {
        let r = StreamInsertState {
            next_def_id: 1,
            qname_to_db_id: NameLookup::new(),
            name_to_db_id: NameLookup::new(),
            pending_refs: Vec::new(),
            pending_calls: Vec::new(),
            pending_inherits: Vec::new(),
            numbered: Ghost(Seq::empty()),
        };
        proof {
            assert(r@.references =~= Seq::empty());
            assert(r@.calls =~= Seq::empty());
            assert(r@.inherits =~= Seq::empty());
        }
        r
    }

    /// Numbers the definition that comes next and gives its row.
    fn number_definition(&mut self, file_id: i64, d: &Definition) -> (r: DefinitionRow)
        requires
            old(self).wf(),
            old(self)@.definitions.len() + 1 < i64::MAX,
            old(self)@.definitions.len() + 1 <= usize::MAX,
        ensures
            final(self).wf(),
            final(self)@ == (StreamView {
                definitions: old(self)@.definitions.push(d@),
                ..old(self)@
            }),
            r@ == save::definition_row(
                (old(self)@.definitions.len() + 1) as i64,
                Some(file_id),
                d@,
            ),
    {
        let id: i64 = self.next_def_id;
        let position: usize = (id - 1) as usize;
        let r = make_definition_row(id, Some(file_id), d);
        self.next_def_id = id + 1;
        self.qname_to_db_id.add(&d.qualified_name, position);
        self.name_to_db_id.add(&d.name, position);
        self.numbered = Ghost(self.numbered@.push(d@));
        proof {
            let before = old(self).numbered@;
            let now = self.numbered@;
            assert(index::names(now).drop_last() =~= index::names(before));
            assert(index::names(now).last() == d.name@);
            assert(index::qualified_names(now).drop_last() =~= index::qualified_names(before));
            assert(index::qualified_names(now).last() == d.qualified_name@);
        }
        r
    }

    /// Whether one more file can be counted and numbered.
    pub fn can_insert(&self, file: &StreamedFileSymbols) -> (r: bool)
        requires
            self.wf(),
        ensures
            r == (file.index < i64::MAX && stream_fits(stream_step(self@, file@))),
    {
        let most: u128 = (i64::MAX - 1) as u128;
        let symbols = &file.symbols;
        let definitions: u128 = (self.next_def_id - 1) as u128 + symbols.definitions.len() as u128;
        let references: u128 = self.pending_refs.len() as u128 + symbols.references.len() as u128;
        let calls: u128 = self.pending_calls.len() as u128 + symbols.calls.len() as u128;
        let inherits: u128 = self.pending_inherits.len() as u128 + symbols.inherits.len() as u128;
        proof {
            let after = stream_step(self@, file@);
            assert(after.definitions.len() == definitions);
            assert(after.references.len() == references);
            assert(after.calls.len() == calls);
            assert(after.inherits.len() == inherits);
        }
        file.index as u128 <= most && definitions <= most && definitions <= usize::MAX as u128
            && references <= most && calls <= most && inherits <= most
    }

    /// Takes the next file: gives its row and those of its definitions, and keeps all else for
    /// the end.
    pub fn insert_file(&mut self, file: StreamedFileSymbols) -> (r: (FileRow, Vec<DefinitionRow>))
        requires
            old(self).wf(),
            file.index < i64::MAX,
            stream_fits(stream_step(old(self)@, file@)),
        ensures
            final(self).wf(),
            final(self)@ == stream_step(old(self)@, file@),
            r.0@ == streamed_file_row(file@),
            text::views(r.1@) == streamed_definition_rows(old(self)@, file@),
    {
        let ghost f = file@;
        let ghost before = self@;
        let file_id: i64 = file.index as i64 + 1;
        let symbols = file.symbols;
        let row = FileRow {
            id: file_id,
            path: symbols.file,
            language: symbols.language,
            checksum: Some(file.checksum),
            symbols_checksum: Some(file.symbols_checksum),
        };
        let ghost wanted = streamed_definition_rows(before, f);
        let mut rows: Vec<DefinitionRow> = Vec::new();
        let mut i: usize = 0;
        assert(before.definitions + f.symbols.definitions.take(0) =~= before.definitions);
        while i < symbols.definitions.len()
            invariant
                self.wf(),
                stream_fits(stream_step(before, f)),
                text::views(symbols.definitions@) == f.symbols.definitions,
                file_id == streamed_number(f),
                wanted == streamed_definition_rows(before, f),
                i <= symbols.definitions@.len(),
                self@ == (StreamView {
                    definitions: before.definitions + f.symbols.definitions.take(i as int),
                    ..before
                }),
                rows@.len() == i,
                forall|k: int| 0 <= k < i ==> (#[trigger] rows@[k])@ == wanted[k],
            decreases symbols.definitions@.len() - i,
        {
            let d = &symbols.definitions[i];
            assert(f.symbols.definitions[i as int] == d@);
            let row = self.number_definition(file_id, d);
            proof {
                assert((before.definitions + f.symbols.definitions.take(i as int)).push(d@)
                    =~= before.definitions + f.symbols.definitions.take(i + 1));
            }
            rows.push(row);
            i = i + 1;
        }
        proof {
            assert(f.symbols.definitions.take(i as int) =~= f.symbols.definitions);
            assert(text::views(rows@) =~= wanted);
        }
        self.keep_references(file_id, symbols.references);
        self.keep_calls(file_id, symbols.calls);
        self.keep_inherits(file_id, symbols.inherits);
        (row, rows)
    }

    /// Keeps references for the end.
    fn keep_references(&mut self, file_id: i64, references: Vec<Reference>)
        requires
            old(self).wf(),
        ensures
            final(self).wf(),
            final(self)@ == (StreamView {
                references: old(self)@.references + tagged(file_id, text::views(references@)),
                ..old(self)@
            }),
    {
        let ghost all = tagged(file_id, text::views(references@));
        let mut i: usize = 0;
        assert(self@.references + all.take(0) =~= self@.references);
        while i < references.len()
            invariant
                self.wf(),
                all == tagged(file_id, text::views(references@)),
                i <= references@.len(),
                self@ == (StreamView {
                    references: old(self)@.references + all.take(i as int),
                    ..old(self)@
                }),
            decreases references@.len() - i,
        {
            let p = PendingReference { file_id, reference: references[i].clone() };
            proof {
                text::lemma_views_push(self.pending_refs@, p);
                assert((old(self)@.references + all.take(i as int)).push(p@) =~= old(
                    self,
                )@.references + all.take(i + 1));
            }
            self.pending_refs.push(p);
            i = i + 1;
        }
        assert(all.take(i as int) =~= all);
    }

    /// Keeps calls for the end.
    fn keep_calls(&mut self, file_id: i64, calls: Vec<CallEdge>)
        requires
            old(self).wf(),
        ensures
            final(self).wf(),
            final(self)@ == (StreamView {
                calls: old(self)@.calls + tagged(file_id, text::views(calls@)),
                ..old(self)@
            }),
    {
        let ghost all = tagged(file_id, text::views(calls@));
        let mut i: usize = 0;
        assert(self@.calls + all.take(0) =~= self@.calls);
        while i < calls.len()
            invariant
                self.wf(),
                all == tagged(file_id, text::views(calls@)),
                i <= calls@.len(),
                self@ == (StreamView {
                    calls: old(self)@.calls + all.take(i as int),
                    ..old(self)@
                }),
            decreases calls@.len() - i,
        {
            let p = PendingCall { file_id, call: calls[i].clone() };
            proof {
                text::lemma_views_push(self.pending_calls@, p);
                assert((old(self)@.calls + all.take(i as int)).push(p@) =~= old(self)@.calls
                    + all.take(i + 1));
            }
            self.pending_calls.push(p);
            i = i + 1;
        }
        assert(all.take(i as int) =~= all);
    }

    /// Keeps inheritance edges for the end.
    fn keep_inherits(&mut self, file_id: i64, inherits: Vec<InheritEdge>)
        requires
            old(self).wf(),
        ensures
            final(self).wf(),
            final(self)@ == (StreamView {
                inherits: old(self)@.inherits + tagged(file_id, text::views(inherits@)),
                ..old(self)@
            }),
    {
        let ghost all = tagged(file_id, text::views(inherits@));
        let mut i: usize = 0;
        assert(self@.inherits + all.take(0) =~= self@.inherits);
        while i < inherits.len()
            invariant
                self.wf(),
                all == tagged(file_id, text::views(inherits@)),
                i <= inherits@.len(),
                self@ == (StreamView {
                    inherits: old(self)@.inherits + all.take(i as int),
                    ..old(self)@
                }),
            decreases inherits@.len() - i,
        {
            let p = PendingInherit { file_id, inherit: inherits[i].clone() };
            proof {
                text::lemma_views_push(self.pending_inherits@, p);
                assert((old(self)@.inherits + all.take(i as int)).push(p@) =~= old(self)@.inherits
                    + all.take(i + 1));
            }
            self.pending_inherits.push(p);
            i = i + 1;
        }
        assert(all.take(i as int) =~= all);
    }

    /// The number of the definition that a name resolves to.
    fn resolve(&self, name: &str) -> (r: Option<i64>)
        requires
            self.wf(),
        ensures
            r == save::number_of(self@.definitions, name@),
    {
        proof {
            index::lemma_spots(index::names(self.numbered@), name@);
            index::lemma_spots(index::qualified_names(self.numbered@), name@);
        }
        if let Some(exact) = self.qname_to_db_id.get(name) {
            if exact.len() == 1 {
                assert(index::spots(index::qualified_names(self.numbered@), name@)[0]
                    < self.numbered@.len());
                return Some(exact[0] as i64 + 1);
            }
            if exact.len() > 1 {
                return None;
            }
        }
        match self.name_to_db_id.get(name) {
            Some(at) => if at.len() == 1 {
                assert(index::spots(index::names(self.numbered@), name@)[0]
                    < self.numbered@.len());
                Some(at[0] as i64 + 1)
            } else {
                None
            },
            None => None,
        }
    }

    /// The number of the definition that an end of a call or of an inheritance edge is linked to.
    fn link(&self, name: &str) -> (r: Option<i64>)
        requires
            self.wf(),
        ensures
            r == save::link_of(self@.definitions, name@),
    {
        proof {
            index::lemma_spots(index::names(self.numbered@), name@);
            index::lemma_spots(index::qualified_names(self.numbered@), name@);
        }
        if let Some(exact) = self.qname_to_db_id.get(name) {
            let n = exact.len();
            if n > 0 {
                assert(index::spots(index::qualified_names(self.numbered@), name@)[n - 1]
                    < self.numbered@.len());
                return Some(exact[n - 1] as i64 + 1);
            }
        }
        match self.name_to_db_id.get(name) {
            Some(at) => if at.len() == 1 {
                assert(index::spots(index::names(self.numbered@), name@)[0]
                    < self.numbered@.len());
                Some(at[0] as i64 + 1)
            } else {
                None
            },
            None => None,
        }
    }

    /// The rows of all that refers to a definition, once every file was taken.
    pub fn pending_rows(&self) -> (r: PendingRows)
        requires
            self.wf(),
            stream_fits(self@),
        ensures
            text::views(r.refs@) == streamed_refs(self@),
            text::views(r.calls@) == streamed_calls(self@),
            text::views(r.inherits@) == streamed_inherits(self@),
            r.metrics == (IncrementalDbUpdate {
                definitions_inserted: self@.definitions.len() as usize,
                references_inserted: self@.references.len() as usize,
                calls_inserted: self@.calls.len() as usize,
                inheritance_inserted: self@.inherits.len() as usize,
            }),
    {
        let ghost s = self@;
        let mut refs: Vec<RefRow> = Vec::new();
        let mut i: usize = 0;
        while i < self.pending_refs.len()
            invariant
                self.wf(),
                s == self@,
                stream_fits(s),
                i <= self.pending_refs@.len(),
                refs@.len() == i,
                forall|k: int| 0 <= k < i ==> (#[trigger] refs@[k])@ == streamed_refs(s)[k],
            decreases self.pending_refs@.len() - i,
        {
            let p = &self.pending_refs[i];
            assert(s.references[i as int] == p@);
            let def_id = self.resolve(p.reference.name.as_str());
            refs.push(make_ref_row(i as i64 + 1, Some(p.file_id), def_id, &p.reference));
            i = i + 1;
        }
        let mut calls: Vec<CallRow> = Vec::new();
        i = 0;
        while i < self.pending_calls.len()
            invariant
                self.wf(),
                s == self@,
                stream_fits(s),
                i <= self.pending_calls@.len(),
                calls@.len() == i,
                forall|k: int| 0 <= k < i ==> (#[trigger] calls@[k])@ == streamed_calls(s)[k],
            decreases self.pending_calls@.len() - i,
        {
            let p = &self.pending_calls[i];
            assert(s.calls[i as int] == p@);
            let caller_id = self.link(p.call.caller_name.as_str());
            let callee_id = self.link(p.call.callee_name.as_str());
            calls.push(make_call_row(i as i64 + 1, Some(p.file_id), caller_id, callee_id, &p.call));
            i = i + 1;
        }
        let mut inherits: Vec<InheritRow> = Vec::new();
        i = 0;
        while i < self.pending_inherits.len()
            invariant
                self.wf(),
                s == self@,
                stream_fits(s),
                i <= self.pending_inherits@.len(),
                inherits@.len() == i,
                forall|k: int| 0 <= k < i ==> (#[trigger] inherits@[k])@ == streamed_inherits(s)[k],
            decreases self.pending_inherits@.len() - i,
        {
            let p = &self.pending_inherits[i];
            assert(s.inherits[i as int] == p@);
            let derived_id = self.link(p.inherit.derived_name.as_str());
            let base_id = self.link(p.inherit.base_name.as_str());
            inherits.push(
                make_inherit_row(i as i64 + 1, Some(p.file_id), derived_id, base_id, &p.inherit),
            );
            i = i + 1;
        }
        proof {
            assert(text::views(refs@) =~= streamed_refs(s));
            assert(text::views(calls@) =~= streamed_calls(s));
            assert(text::views(inherits@) =~= streamed_inherits(s));
        }
        PendingRows {
            refs,
            calls,
            inherits,
            metrics: IncrementalDbUpdate {
                definitions_inserted: (self.next_def_id - 1) as usize,
                references_inserted: self.pending_refs.len(),
                calls_inserted: self.pending_calls.len(),
                inheritance_inserted: self.pending_inherits.len(),
            },
        }
    }
}

} // verus!
