//! Puts parsed files, which arrive in any order, back into the order of the file list.
use crate::text::decimal_of;
use crate::text;
use crate::types::{FileSymbols, FileSymbolsView};
use std::collections::BTreeMap;
use vstd::prelude::*;

verus! {

broadcast use {vstd::laws_cmp::group_laws_cmp, vstd::std_specs::btree::group_btree_axioms};

/// A parsed file with its position in the file list and its checksums.
#[derive(Debug)]
pub struct StreamedFileSymbols {
    pub index: usize,
    pub symbols: FileSymbols,
    pub checksum: String,
    pub symbols_checksum: String,
}

/// A parsed file with its position in the file list and its checksums.
pub struct StreamedFileView {
    pub index: usize,
    pub symbols: FileSymbolsView,
    pub checksum: Seq<char>,
    pub symbols_checksum: Seq<char>,
}

impl View for StreamedFileSymbols {
    type V = StreamedFileView;

    open spec fn view(&self) -> StreamedFileView {
        StreamedFileView {
            index: self.index,
            symbols: self.symbols@,
            checksum: self.checksum@,
            symbols_checksum: self.symbols_checksum@,
        }
    }
}

/// The files that wait for an earlier one, and the position that is awaited.
pub struct OrderView {
    pub next: usize,
    pub waiting: Map<usize, StreamedFileView>,
}

/// What the arrival of a file does: `out` are the files that are released, in order from the
/// awaited position on up to the first that is still missing; the others wait.
pub open spec fn releases(
    before: OrderView,
    file: StreamedFileView,
    out: Seq<StreamedFileView>,
    after: OrderView,
) -> bool {
    let held = before.waiting.insert(file.index, file);
    &&& after.next == before.next + out.len()
    &&& forall|k: int| 0 <= k < out.len() ==> #[trigger] out[k] == held[(before.next + k) as usize]
    &&& forall|i: usize| before.next <= i < after.next ==> #[trigger] held.contains_key(i)
    &&& !held.contains_key(after.next)
    &&& forall|i: usize| #[trigger]
        after.waiting.contains_key(i) <==> held.contains_key(i) && !(before.next <= i < after.next)
    &&& forall|i: usize| #[trigger] after.waiting.contains_key(i) ==> after.waiting[i] == held[i]
}

/// Files that wait for an earlier one.
pub struct StreamOrder {
    next_index: usize,
    pending: BTreeMap<usize, StreamedFileSymbols>,
}

impl View for StreamOrder {
    type V = OrderView;

    closed spec fn view(&self) -> OrderView {
        OrderView {
            next: self.next_index,
            waiting: self.pending@.map_values(|f: StreamedFileSymbols| f@),
        }
    }
}

impl StreamOrder {
    /// Nothing waits, and the first file is awaited.
    pub fn new() -> (r: Self)
        ensures
            r@.next == 0,
            r@.waiting == Map::<usize, StreamedFileView>::empty(),
    {
        let r = StreamOrder { next_index: 0, pending: BTreeMap::new() };
        assert(r@.waiting =~= Map::<usize, StreamedFileView>::empty());
        r
    }

    /// The position of the file that is awaited.
    pub fn next_index(&self) -> (r: usize)
        ensures
            r == self@.next,
    {
        self.next_index
    }

    /// Takes a file and hands out those whose turn has come.
    pub fn push(&mut self, file: StreamedFileSymbols) -> (r: Vec<StreamedFileSymbols>)
        requires
            file.index < usize::MAX,
            forall|i: usize| #[trigger] old(self)@.waiting.contains_key(i) ==> i < usize::MAX,
        ensures
            releases(old(self)@, file@, text::views(r@), final(self)@),
            forall|i: usize| #[trigger] final(self)@.waiting.contains_key(i) ==> i < usize::MAX,
    {
        let ghost start = self@;
        let ghost held = start.waiting.insert(file.index, file@);
        let ghost arrived = file@;
        let mut out: Vec<StreamedFileSymbols> = Vec::new();
        let position = file.index;
        self.pending.insert(position, file);
        assert(self@.waiting =~= held);
        while self.pending.contains_key(&self.next_index)
            invariant
                held == start.waiting.insert(arrived.index, arrived),
                forall|i: usize| #[trigger] held.contains_key(i) ==> i < usize::MAX,
                self@.next == self.next_index,
                self.next_index == start.next + out@.len(),
                forall|k: int|
                    0 <= k < out@.len() ==> (#[trigger] out@[k])@ == held[(start.next
                        + k) as usize],
                forall|i: usize|
                    start.next <= i < self.next_index ==> #[trigger] held.contains_key(i),
                forall|i: usize| #[trigger]
                    self@.waiting.contains_key(i) <==> held.contains_key(i) && !(start.next <= i
                        < self.next_index),
                forall|i: usize| #[trigger]
                    self@.waiting.contains_key(i) ==> self@.waiting[i] == held[i],
                self@.waiting == self.pending@.map_values(|f: StreamedFileSymbols| f@),
            ensures
                !self.pending@.contains_key(self.next_index),
            decreases usize::MAX - self.next_index,
        {
            let ghost before = self@.waiting;
            assert(before.contains_key(self.next_index));
            let next = self.next_index;
            if let Some(f) = self.pending.remove(&next) {
                assert(f@ == before[next]);
                assert(held.contains_key(next));
                assert(before[next] == held[next]);
                out.push(f);
                self.next_index = next + 1;
                assert(self@.waiting =~= before.remove(next));
            } else {
                assert(false);
            }
        }
        proof {
            assert(!self@.waiting.contains_key(self.next_index));
            assert(!held.contains_key(self.next_index));
            assert forall|k: int| 0 <= k < text::views(out@).len() implies #[trigger] text::views(
                out@,
            )[k] == held[(start.next + k) as usize] by {
                assert(out@[k]@ == held[(start.next + k) as usize]);
            }
        }
        out
    }

    /// Whether the stream may end here: nothing waits any more.
    pub fn finish(&self) -> (r: Result<(), String>)
        ensures
            r is Ok <==> self@.waiting.dom() == Set::<usize>::empty(),
            r matches Err(e) ==> e@ == "parser stream ended before file index "@ + text::decimal(
                self@.next as nat,
            ) + "; "@ + text::decimal(self@.waiting.dom().len()) + " parsed files are pending"@,
    {
        assert(self@.waiting.dom() =~= self.pending@.dom());
        if self.pending.is_empty() {
            assert(self@.waiting.dom() =~= Set::<usize>::empty());
            return Ok(());
        }
        let mut e = "parser stream ended before file index ".to_owned();
        e.append(decimal_of(self.next_index as u128).as_str());
        e.append("; ");
        e.append(decimal_of(self.pending.len() as u128).as_str());
        e.append(" parsed files are pending");
        Err(e)
    }
}

/// Whether the files that have arrived so far are exactly those released, which are all up to
/// the awaited one, and those that wait, which all come later.
pub open spec fn accounts_for(arrived: Set<usize>, o: OrderView) -> bool {
    forall|i: usize| #[trigger]
        arrived.contains(i) <==> i < o.next || o.waiting.contains_key(i) && o.waiting[i].index == i
            && i > o.next
}

/// Whether the files that wait all come after the awaited one.
pub open spec fn waits_for_next(o: OrderView) -> bool {
    forall|i: usize| #[trigger] o.waiting.contains_key(i) ==> i > o.next && o.waiting[i].index == i
}

/// Files that arrive once each are released in the order of their positions, without a gap, and
/// none is lost: each has been released or waits.
pub proof fn law_released_in_order(
    arrived: Set<usize>,
    before: OrderView,
    file: StreamedFileView,
    out: Seq<StreamedFileView>,
    after: OrderView,
)
    requires
        waits_for_next(before),
        accounts_for(arrived, before),
        !arrived.contains(file.index),
        releases(before, file, out, after),
    ensures
        waits_for_next(after),
        accounts_for(arrived.insert(file.index), after),
        forall|k: int| 0 <= k < out.len() ==> (#[trigger] out[k]).index == before.next + k,
{
    let held = before.waiting.insert(file.index, file);
    assert(file.index >= before.next);
    assert forall|k: int| 0 <= k < out.len() implies (#[trigger] out[k]).index == before.next + k by {
        assert(out[k] == held[(before.next + k) as usize]);
        assert(held.contains_key((before.next + k) as usize));
        assert(before.next + k < after.next);
    }
    assert forall|i: usize| #[trigger] after.waiting.contains_key(i) implies i > after.next
        && after.waiting[i].index == i by {
        assert(held.contains_key(i));
        assert(i >= before.next);
        assert(i != after.next);
    }
    let now = arrived.insert(file.index);
    assert forall|i: usize| #[trigger] now.contains(i) <==> i < after.next
        || after.waiting.contains_key(i) && after.waiting[i].index == i && i > after.next by {
        if before.next <= i < after.next {
            let k = i - before.next;
            assert(out[k] == held[(before.next + k) as usize]);
            assert(held.contains_key(i));
            assert(i == file.index || before.waiting.contains_key(i));
        }
        if i > after.next {
            assert(after.waiting.contains_key(i) <==> held.contains_key(i));
        }
        if i == after.next {
            assert(!held.contains_key(i));
        }
        if i < before.next {
            assert(arrived.contains(i));
        }
    }
}

/// Once every file of a list has arrived, all of them have been released.
pub proof fn law_complete_stream_ends(arrived: Set<usize>, n: usize, o: OrderView)
    requires
        waits_for_next(o),
        accounts_for(arrived, o),
        forall|i: usize| #[trigger] arrived.contains(i) <==> i < n,
    ensures
        o.next == n,
        o.waiting.dom() == Set::<usize>::empty(),
{
    if o.next < n {
        assert(arrived.contains(o.next));
    }
    if o.next > n {
        assert(arrived.contains(n));
    }
    assert forall|i: usize| !o.waiting.dom().contains(i) by {
        if o.waiting.contains_key(i) {
            assert(arrived.contains(i));
        }
    }
    assert(o.waiting.dom() =~= Set::<usize>::empty());
}

} // verus!
