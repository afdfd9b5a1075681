//! The in-memory cross-reference index and its queries.
use crate::lookup::NameLookup;
use crate::text::{contains, same, simple_name};
use crate::text;
use crate::types::{
    CallEdge, CallEdgeView, DefId, Definition, DefinitionView, FileSymbols, FileSymbolsView,
    IndexedFile, IndexedFileView, InheritEdge, InheritEdgeView, Reference, ReferenceView,
};
use vstd::prelude::*;

verus! {

/// A text in lower case, as Unicode maps it.
pub uninterp spec fn lowercase(s: Seq<char>) -> Seq<char>;

/// A text in lower case: of ASCII characters, the letters `A` to `Z` alone have a lower case
/// other than themselves.
pub open spec fn lowered(s: Seq<char>) -> Seq<char> {
    if text::is_ascii_text(s) {
        text::ascii_lowered(s)
    } else {
        lowercase(s)
    }
}

/// `str::to_lowercase`: the text in lower case, which depends on the text alone. Of an ASCII
/// text the letters `A` to `Z` are lowered and the rest stays.
pub assume_specification[ str::to_lowercase ](s: &str) -> (r: String)
    ensures
        r@ == if text::is_ascii_text(s@) {
            text::ascii_lowered(s@)
        } else {
            lowercase(s@)
        },
;

/// What an index holds.
pub struct IndexView {
    pub files: Seq<IndexedFileView>,
    pub definitions: Seq<DefinitionView>,
    pub references: Seq<ReferenceView>,
    pub calls: Seq<CallEdgeView>,
    pub inherits: Seq<InheritEdgeView>,
}

/// The positions at which a key stands, in ascending order.
pub open spec fn spots(keys: Seq<Seq<char>>, key: Seq<char>) -> Seq<usize>
    decreases keys.len(),
{
    if keys.len() == 0 {
        Seq::empty()
    } else {
        let before = spots(keys.drop_last(), key);
        if keys.last() == key {
            before.push((keys.len() - 1) as usize)
        } else {
            before
        }
    }
}

/// The positions at which a key stands, in full or behind its last scope separator.
pub open spec fn loose_spots(keys: Seq<Seq<char>>, key: Seq<char>) -> Seq<usize>
    decreases keys.len(),
{
    if keys.len() == 0 {
        Seq::empty()
    } else {
        let before = loose_spots(keys.drop_last(), key);
        if keys.last() == key || text::simple(keys.last()) == key {
            before.push((keys.len() - 1) as usize)
        } else {
            before
        }
    }
}

/// The names of definitions.
pub open spec fn names(definitions: Seq<DefinitionView>) -> Seq<Seq<char>> {
    definitions.map_values(|d: DefinitionView| d.name)
}

/// The qualified names of definitions.
pub open spec fn qualified_names(definitions: Seq<DefinitionView>) -> Seq<Seq<char>> {
    definitions.map_values(|d: DefinitionView| d.qualified_name)
}

/// The names that references use.
pub open spec fn used_names(references: Seq<ReferenceView>) -> Seq<Seq<char>> {
    references.map_values(|r: ReferenceView| r.name)
}

/// The names that calls call.
pub open spec fn callee_names(calls: Seq<CallEdgeView>) -> Seq<Seq<char>> {
    calls.map_values(|c: CallEdgeView| c.callee_name)
}

/// The names of the functions in which calls stand.
pub open spec fn caller_names(calls: Seq<CallEdgeView>) -> Seq<Seq<char>> {
    calls.map_values(|c: CallEdgeView| c.caller_name)
}

/// The names of derived classes.
pub open spec fn derived_names(inherits: Seq<InheritEdgeView>) -> Seq<Seq<char>> {
    inherits.map_values(|e: InheritEdgeView| e.derived_name)
}

/// The names of base classes.
pub open spec fn base_names(inherits: Seq<InheritEdgeView>) -> Seq<Seq<char>> {
    inherits.map_values(|e: InheritEdgeView| e.base_name)
}

/// The positions of the definitions that a name stands for: the last one that has it as its
/// qualified name; where none has, all that have it as their simple name.
pub open spec fn meant(definitions: Seq<DefinitionView>, name: Seq<char>) -> Seq<usize> {
    let exact = spots(qualified_names(definitions), name);
    if exact.len() > 0 {
        seq![exact.last()]
    } else {
        spots(names(definitions), name)
    }
}

/// The values at the given positions.
pub open spec fn picked<T>(all: Seq<T>, at: Seq<usize>) -> Seq<T> {
    at.map_values(|i: usize| all[i as int])
}

/// The definitions that a name stands for.
pub open spec fn defined_as(definitions: Seq<DefinitionView>, name: Seq<char>) -> Seq<
    DefinitionView,
> {
    picked(definitions, meant(definitions, name))
}

/// For each of the positions in turn, the definitions that the name at it stands for.
pub open spec fn all_defined_as(
    definitions: Seq<DefinitionView>,
    keys: Seq<Seq<char>>,
    at: Seq<usize>,
) -> Seq<DefinitionView>
    decreases at.len(),
{
    if at.len() == 0 {
        Seq::empty()
    } else {
        all_defined_as(definitions, keys, at.drop_last()) + defined_as(
            definitions,
            keys[at.last() as int],
        )
    }
}

/// The definition that a reference resolves to: the only one with the name as its qualified
/// name; where none has it so, the only one with it as its simple name. An ambiguous name
/// resolves to nothing.
pub open spec fn resolution(definitions: Seq<DefinitionView>, name: Seq<char>) -> Option<DefId> {
    let exact = spots(qualified_names(definitions), name);
    let simple = spots(names(definitions), name);
    if exact.len() == 1 {
        Some(DefId(exact[0]))
    } else if exact.len() == 0 && simple.len() == 1 {
        Some(DefId(simple[0]))
    } else {
        None
    }
}

/// A name resolves to a position of the list.
pub proof fn lemma_resolution(definitions: Seq<DefinitionView>, name: Seq<char>)
    requires
        definitions.len() <= usize::MAX,
    ensures
        resolution(definitions, name) matches Some(id) ==> id.0 < definitions.len(),
{
    let exact = spots(qualified_names(definitions), name);
    let simple = spots(names(definitions), name);
    lemma_spots(qualified_names(definitions), name);
    lemma_spots(names(definitions), name);
    if exact.len() == 1 {
        assert(exact[0] < definitions.len());
    } else if simple.len() == 1 {
        assert(simple[0] < definitions.len());
    }
}

/// The definition that an end of a call or of an inheritance edge is linked to: the one that its
/// name stands for, where it stands for one.
pub open spec fn linked_to(definitions: Seq<DefinitionView>, name: Seq<char>) -> Option<DefId> {
    let at = meant(definitions, name);
    if at.len() == 1 {
        Some(DefId(at[0]))
    } else {
        None
    }
}

/// A name is linked to a position of the list.
pub proof fn lemma_linked_to(definitions: Seq<DefinitionView>, name: Seq<char>)
    requires
        definitions.len() <= usize::MAX,
    ensures
        linked_to(definitions, name) matches Some(id) ==> id.0 < definitions.len(),
{
    let exact = spots(qualified_names(definitions), name);
    let simple = spots(names(definitions), name);
    lemma_spots(qualified_names(definitions), name);
    lemma_spots(names(definitions), name);
    if exact.len() > 0 {
        assert(exact[exact.len() - 1] < definitions.len());
    } else if simple.len() == 1 {
        assert(simple[0] < definitions.len());
    }
}

/// A reference with the definition that it resolves to, where it does.
pub open spec fn resolved(definitions: Seq<DefinitionView>, r: ReferenceView) -> ReferenceView {
    match resolution(definitions, r.name) {
        Some(id) => ReferenceView { def_id: Some(id), ..r },
        None => r,
    }
}

/// Whether an edge that names a class means the class that is asked for: the names are the same,
/// or one of them is the other without its scopes. Where it is the edge that leaves out the
/// scopes, a definition has to have the name that is asked for as its qualified name.
pub open spec fn names_class(
    definitions: Seq<DefinitionView>,
    key: Seq<char>,
    class_name: Seq<char>,
) -> bool {
    ||| key == class_name
    ||| text::simple(key) == class_name
    ||| key == text::simple(class_name) && qualified_names(definitions).contains(class_name)
}

/// The positions of the edges that mean a class, in ascending order.
pub open spec fn class_spots(
    definitions: Seq<DefinitionView>,
    keys: Seq<Seq<char>>,
    class_name: Seq<char>,
) -> Seq<usize>
    decreases keys.len(),
{
    if keys.len() == 0 {
        Seq::empty()
    } else {
        let before = class_spots(definitions, keys.drop_last(), class_name);
        if names_class(definitions, keys.last(), class_name) {
            before.push((keys.len() - 1) as usize)
        } else {
            before
        }
    }
}

/// The definitions of the classes that the class derives from, one edge after the other.
pub open spec fn direct_bases(ix: IndexView, class_name: Seq<char>) -> Seq<DefinitionView> {
    all_defined_as(
        ix.definitions,
        base_names(ix.inherits),
        class_spots(ix.definitions, derived_names(ix.inherits), class_name),
    )
}

/// The definitions of the classes that derive from the class, one edge after the other.
pub open spec fn direct_derived(ix: IndexView, class_name: Seq<char>) -> Seq<DefinitionView> {
    all_defined_as(
        ix.definitions,
        derived_names(ix.inherits),
        class_spots(ix.definitions, base_names(ix.inherits), class_name),
    )
}

/// The positions of the texts that hold another, in ascending order.
pub open spec fn holding(texts: Seq<Seq<char>>, part: Seq<char>) -> Seq<usize>
    decreases texts.len(),
{
    if texts.len() == 0 {
        Seq::empty()
    } else {
        let before = holding(texts.drop_last(), part);
        if text::contains_text(texts.last(), part) {
            before.push((texts.len() - 1) as usize)
        } else {
            before
        }
    }
}

/// The definitions whose name holds a pattern, both in lower case.
pub open spec fn search(definitions: Seq<DefinitionView>, pattern: Seq<char>) -> Seq<
    DefinitionView,
> {
    picked(
        definitions,
        holding(
            names(definitions).map_values(|n: Seq<char>| lowered(n)),
            lowered(pattern),
        ),
    )
}

/// What a list of positions found among keys holds: positions of the list, in ascending order.
pub open spec fn ascending(at: Seq<usize>, n: int) -> bool {
    &&& forall|i: int| 0 <= i < at.len() ==> (#[trigger] at[i]) < n
    &&& forall|i: int, j: int| 0 <= i < j < at.len() ==> at[i] < at[j]
}

/// The positions of a key are exactly those at which it stands, in ascending order.
pub proof fn lemma_spots(keys: Seq<Seq<char>>, key: Seq<char>)
    requires
        keys.len() <= usize::MAX,
    ensures
        ascending(spots(keys, key), keys.len() as int),
        forall|i: int| 0 <= i < spots(keys, key).len() ==> keys[(#[trigger] spots(keys, key)[i]) as int] == key,
        forall|j: usize| j < keys.len() && keys[j as int] == key ==> #[trigger] spots(keys, key).contains(j),
    decreases keys.len(),
{
    if keys.len() > 0 {
        let short = keys.drop_last();
        let before = spots(short, key);
        let now = spots(keys, key);
        lemma_spots(short, key);
        assert forall|i: int| 0 <= i < now.len() implies now[i] < keys.len() && keys[
            (#[trigger] now[i]) as int] == key by {
            if i < before.len() {
                assert(now[i] == before[i]);
                assert(short[before[i] as int] == key);
            }
        }
        assert forall|j: usize| j < keys.len() && keys[j as int] == key implies #[trigger]
            now.contains(j) by {
            if j < short.len() {
                assert(short[j as int] == key);
                assert(before.contains(j));
                let k = choose|k: int| 0 <= k < before.len() && before[k] == j;
                assert(now[k] == j);
            } else {
                assert(now[now.len() - 1] == j);
            }
        }
    }
}

/// The positions of a key, found loosely, are exactly those at which it stands in full or
/// behind the last scope separator, in ascending order.
pub proof fn lemma_loose_spots(keys: Seq<Seq<char>>, key: Seq<char>)
    requires
        keys.len() <= usize::MAX,
    ensures
        ascending(loose_spots(keys, key), keys.len() as int),
        forall|i: int| 0 <= i < loose_spots(keys, key).len() ==> {
            let k = keys[(#[trigger] loose_spots(keys, key)[i]) as int];
            k == key || text::simple(k) == key
        },
        forall|j: usize|
            j < keys.len() && (keys[j as int] == key || text::simple(keys[j as int]) == key)
                ==> #[trigger] loose_spots(keys, key).contains(j),
    decreases keys.len(),
{
    if keys.len() > 0 {
        let short = keys.drop_last();
        let before = loose_spots(short, key);
        let now = loose_spots(keys, key);
        lemma_loose_spots(short, key);
        assert forall|i: int| 0 <= i < now.len() implies now[i] < keys.len() && ({
            let k = keys[(#[trigger] now[i]) as int];
            k == key || text::simple(k) == key
        }) by {
            if i < before.len() {
                assert(now[i] == before[i]);
                assert(short[before[i] as int] == keys[now[i] as int]);
            }
        }
        assert forall|j: usize|
            j < keys.len() && (keys[j as int] == key || text::simple(keys[j as int])
                == key) implies #[trigger] now.contains(j) by {
            if j < short.len() {
                assert(short[j as int] == keys[j as int]);
                assert(before.contains(j));
                let k = choose|k: int| 0 <= k < before.len() && before[k] == j;
                assert(now[k] == j);
            } else {
                assert(now[now.len() - 1] == j);
            }
        }
    }
}

/// The positions of the edges that mean a class are exactly those at which it is named, in
/// ascending order.
pub proof fn lemma_class_spots(
    definitions: Seq<DefinitionView>,
    keys: Seq<Seq<char>>,
    class_name: Seq<char>,
)
    requires
        keys.len() <= usize::MAX,
    ensures
        ascending(class_spots(definitions, keys, class_name), keys.len() as int),
        forall|i: int|
            0 <= i < class_spots(definitions, keys, class_name).len() ==> names_class(
                definitions,
                keys[(#[trigger] class_spots(definitions, keys, class_name)[i]) as int],
                class_name,
            ),
        forall|j: usize|
            j < keys.len() && names_class(definitions, keys[j as int], class_name)
                ==> #[trigger] class_spots(definitions, keys, class_name).contains(j),
    decreases keys.len(),
{
    if keys.len() > 0 {
        let short = keys.drop_last();
        let before = class_spots(definitions, short, class_name);
        let now = class_spots(definitions, keys, class_name);
        lemma_class_spots(definitions, short, class_name);
        assert forall|i: int| 0 <= i < now.len() implies now[i] < keys.len() && names_class(
            definitions,
            keys[(#[trigger] now[i]) as int],
            class_name,
        ) by {
            if i < before.len() {
                assert(now[i] == before[i]);
                assert(short[before[i] as int] == keys[now[i] as int]);
            }
        }
        assert forall|j: usize|
            j < keys.len() && names_class(
                definitions,
                keys[j as int],
                class_name,
            ) implies #[trigger] now.contains(j) by {
            if j < short.len() {
                assert(short[j as int] == keys[j as int]);
                assert(before.contains(j));
                let k = choose|k: int| 0 <= k < before.len() && before[k] == j;
                assert(now[k] == j);
            } else {
                assert(now[now.len() - 1] == j);
            }
        }
    }
}

/// Tells the positions of keys that mean a class.
spec fn means_class(
    definitions: Seq<DefinitionView>,
    keys: Seq<Seq<char>>,
    class_name: Seq<char>,
) -> spec_fn(usize) -> bool {
    |i: usize| names_class(definitions, keys[i as int], class_name)
}

/// The edges that mean a class are among those that name it without its scopes.
proof fn lemma_class_spots_are_loose(
    definitions: Seq<DefinitionView>,
    all: Seq<Seq<char>>,
    class_name: Seq<char>,
    n: int,
)
    requires
        0 <= n <= all.len() <= usize::MAX,
    ensures
        class_spots(definitions, all.take(n), class_name) == loose_spots(
            all.take(n),
            text::simple(class_name),
        ).filter(means_class(definitions, all, class_name)),
    decreases n,
{
    let keys = all.take(n);
    let p = means_class(definitions, all, class_name);
    let s = text::simple(class_name);
    reveal(Seq::filter);
    if n == 0 {
        assert(loose_spots(keys, s).filter(p) =~= Seq::empty());
    } else {
        let key = all[n - 1];
        lemma_class_spots_are_loose(definitions, all, class_name, n - 1);
        assert(keys.drop_last() =~= all.take(n - 1));
        assert(keys.last() == key);
        text::lemma_simple_twice(key);
        let before = loose_spots(keys.drop_last(), s);
        if key == s || text::simple(key) == s {
            let now = before.push((n - 1) as usize);
            assert(now.drop_last() =~= before);
            assert(p((n - 1) as usize) == names_class(definitions, key, class_name));
        } else {
            assert(!names_class(definitions, key, class_name));
        }
    }
}

/// Whether a lookup holds, for every key, the positions at which it stands.
spec fn looks_up(l: NameLookup, keys: Seq<Seq<char>>) -> bool {
    forall|k: Seq<char>| #[trigger] l.at(k) == spots(keys, k)
}

/// Whether a lookup holds, for every key, the positions at which it stands loosely.
spec fn looks_up_loosely(l: NameLookup, keys: Seq<Seq<char>>) -> bool {
    forall|k: Seq<char>| #[trigger] l.at(k) == loose_spots(keys, k)
}

/// Adds the key at the next position.
fn add_key(l: &mut NameLookup, key: &String, i: usize, keys: Ghost<Seq<Seq<char>>>)
    requires
        looks_up(*old(l), keys@),
        i == keys@.len(),
    ensures
        looks_up(*final(l), keys@.push(key@)),
{
    l.add(key, i);
    proof {
        let now = keys@.push(key@);
        assert(now.drop_last() =~= keys@);
        assert(now.last() == key@);
    }
}

/// Adds the key at the next position, in full and behind its last scope separator.
fn add_loose_key(l: &mut NameLookup, key: &String, i: usize, keys: Ghost<Seq<Seq<char>>>)
    requires
        looks_up_loosely(*old(l), keys@),
        i == keys@.len(),
    ensures
        looks_up_loosely(*final(l), keys@.push(key@)),
{
    let simple = simple_name(key.as_str());
    l.add(key, i);
    if !same(simple.as_str(), key.as_str()) {
        l.add(&simple, i);
    }
    proof {
        let now = keys@.push(key@);
        assert(now.drop_last() =~= keys@);
        assert(now.last() == key@);
    }
}

/// The definition that a name resolves to, by lookups of the definitions.
fn resolve_in(
    by_qualified_name: &NameLookup,
    by_name: &NameLookup,
    name: &str,
    definitions: Ghost<Seq<DefinitionView>>,
) -> (r: Option<DefId>)
    requires
        looks_up(*by_qualified_name, qualified_names(definitions@)),
        looks_up(*by_name, names(definitions@)),
    ensures
        r == resolution(definitions@, name@),
{
    if let Some(exact) = by_qualified_name.get(name) {
        if exact.len() == 1 {
            return Some(DefId(exact[0]));
        }
        if exact.len() > 1 {
            return None;
        }
    }
    match by_name.get(name) {
        Some(at) => if at.len() == 1 {
            Some(DefId(at[0]))
        } else {
            None
        },
        None => None,
    }
}

/// In-memory cross-reference index.
pub struct Index {
    files: Vec<IndexedFile>,
    definitions: Vec<Definition>,
    references: Vec<Reference>,
    calls: Vec<CallEdge>,
    inherits: Vec<InheritEdge>,
    defs_by_name: NameLookup,
    defs_by_qualified_name: NameLookup,
    refs_by_name: NameLookup,
    callers: NameLookup,
    callees: NameLookup,
    inherits_from: NameLookup,
    base_of: NameLookup,
}

impl View for Index {
    type V = IndexView;

    closed spec fn view(&self) -> IndexView {
        IndexView {
            files: text::views(self.files@),
            definitions: text::views(self.definitions@),
            references: text::views(self.references@),
            calls: text::views(self.calls@),
            inherits: text::views(self.inherits@),
        }
    }
}

/// Lookups of definitions by name and by qualified name.
fn index_definitions(definitions: &Vec<Definition>) -> (r: (NameLookup, NameLookup))
    ensures
        looks_up(r.0, names(text::views(definitions@))),
        looks_up(r.1, qualified_names(text::views(definitions@))),
{
    let ghost all = text::views(definitions@);
    let mut by_name = NameLookup::new();
    let mut by_qualified_name = NameLookup::new();
    let mut i: usize = 0;
    while i < definitions.len()
        invariant
            all == text::views(definitions@),
            i <= definitions@.len(),
            looks_up(by_name, names(all).take(i as int)),
            looks_up(by_qualified_name, qualified_names(all).take(i as int)),
        decreases definitions@.len() - i,
    {
        let d = &definitions[i];
        add_key(&mut by_name, &d.name, i, Ghost(names(all).take(i as int)));
        add_key(
            &mut by_qualified_name,
            &d.qualified_name,
            i,
            Ghost(qualified_names(all).take(i as int)),
        );
        proof {
            assert(all[i as int] == d@);
            assert(names(all).take(i + 1) =~= names(all).take(i as int).push(d.name@));
            assert(qualified_names(all).take(i + 1) =~= qualified_names(all).take(i as int).push(
                d.qualified_name@,
            ));
        }
        i = i + 1;
    }
    proof {
        assert(names(all).take(i as int) =~= names(all));
        assert(qualified_names(all).take(i as int) =~= qualified_names(all));
    }
    (by_name, by_qualified_name)
}

/// A lookup of references by the name that they use.
fn index_references(references: &Vec<Reference>) -> (r: NameLookup)
    ensures
        looks_up(r, used_names(text::views(references@))),
{
    let ghost all = used_names(text::views(references@));
    let mut r = NameLookup::new();
    let mut i: usize = 0;
    while i < references.len()
        invariant
            all == used_names(text::views(references@)),
            i <= references@.len(),
            looks_up(r, all.take(i as int)),
        decreases references@.len() - i,
    {
        add_key(&mut r, &references[i].name, i, Ghost(all.take(i as int)));
        assert(all.take(i + 1) =~= all.take(i as int).push(references@[i as int].name@));
        i = i + 1;
    }
    assert(all.take(i as int) =~= all);
    r
}

/// Lookups of calls by the name that they call and by the function that they stand in.
fn index_calls(calls: &Vec<CallEdge>) -> (r: (NameLookup, NameLookup))
    ensures
        looks_up(r.0, callee_names(text::views(calls@))),
        looks_up(r.1, caller_names(text::views(calls@))),
{
    let ghost callees = callee_names(text::views(calls@));
    let ghost callers = caller_names(text::views(calls@));
    let mut by_callee = NameLookup::new();
    let mut by_caller = NameLookup::new();
    let mut i: usize = 0;
    while i < calls.len()
        invariant
            callees == callee_names(text::views(calls@)),
            callers == caller_names(text::views(calls@)),
            i <= calls@.len(),
            looks_up(by_callee, callees.take(i as int)),
            looks_up(by_caller, callers.take(i as int)),
        decreases calls@.len() - i,
    {
        let c = &calls[i];
        add_key(&mut by_callee, &c.callee_name, i, Ghost(callees.take(i as int)));
        add_key(&mut by_caller, &c.caller_name, i, Ghost(callers.take(i as int)));
        proof {
            assert(callees.take(i + 1) =~= callees.take(i as int).push(c.callee_name@));
            assert(callers.take(i + 1) =~= callers.take(i as int).push(c.caller_name@));
        }
        i = i + 1;
    }
    proof {
        assert(callees.take(i as int) =~= callees);
        assert(callers.take(i as int) =~= callers);
    }
    (by_callee, by_caller)
}

/// Lookups of inheritance edges by derived class and by base class.
fn index_inherits(inherits: &Vec<InheritEdge>) -> (r: (NameLookup, NameLookup))
    ensures
        looks_up_loosely(r.0, derived_names(text::views(inherits@))),
        looks_up_loosely(r.1, base_names(text::views(inherits@))),
{
    let ghost derived = derived_names(text::views(inherits@));
    let ghost bases = base_names(text::views(inherits@));
    let mut by_derived = NameLookup::new();
    let mut by_base = NameLookup::new();
    let mut i: usize = 0;
    while i < inherits.len()
        invariant
            derived == derived_names(text::views(inherits@)),
            bases == base_names(text::views(inherits@)),
            i <= inherits@.len(),
            looks_up_loosely(by_derived, derived.take(i as int)),
            looks_up_loosely(by_base, bases.take(i as int)),
        decreases inherits@.len() - i,
    {
        let e = &inherits[i];
        add_loose_key(&mut by_derived, &e.derived_name, i, Ghost(derived.take(i as int)));
        add_loose_key(&mut by_base, &e.base_name, i, Ghost(bases.take(i as int)));
        proof {
            assert(derived.take(i + 1) =~= derived.take(i as int).push(e.derived_name@));
            assert(bases.take(i + 1) =~= bases.take(i as int).push(e.base_name@));
        }
        i = i + 1;
    }
    proof {
        assert(derived.take(i as int) =~= derived);
        assert(bases.take(i as int) =~= bases);
    }
    (by_derived, by_base)
}

/// The positions of the texts that hold another, in ascending order.
pub fn find_holding(texts: &Vec<String>, part: &str) -> (r: Vec<usize>)
    ensures
        r@ == holding(text::views(texts@), part@),
{
    let ghost all = text::views(texts@);
    let mut r: Vec<usize> = Vec::new();
    let mut i: usize = 0;
    while i < texts.len()
        invariant
            all == text::views(texts@),
            i <= texts@.len(),
            r@ == holding(all.take(i as int), part@),
        decreases texts@.len() - i,
    {
        let found = contains(texts[i].as_str(), part);
        proof {
            assert(all.take(i + 1).drop_last() =~= all.take(i as int));
            assert(all.take(i + 1).last() == texts@[i as int]@);
        }
        if found {
            r.push(i);
        }
        i = i + 1;
    }
    assert(all.take(i as int) =~= all);
    r
}

/// Base and derived classes of a class.
#[derive(Debug)]
pub struct ClassHierarchy<'a> {
    pub bases: Vec<&'a Definition>,
    pub derived: Vec<&'a Definition>,
}

impl Index {
    /// The lookups agree with what the index holds.
    #[verifier::type_invariant]
    spec fn lookups_agree(self) -> bool {
        &&& looks_up(self.defs_by_name, names(text::views(self.definitions@)))
        &&& looks_up(self.defs_by_qualified_name, qualified_names(text::views(self.definitions@)))
        &&& looks_up(self.refs_by_name, used_names(text::views(self.references@)))
        &&& looks_up(self.callers, callee_names(text::views(self.calls@)))
        &&& looks_up(self.callees, caller_names(text::views(self.calls@)))
        &&& looks_up_loosely(self.inherits_from, derived_names(text::views(self.inherits@)))
        &&& looks_up_loosely(self.base_of, base_names(text::views(self.inherits@)))
    }

    /// An index over the given parts.
    pub fn new(
        files: Vec<IndexedFile>,
        definitions: Vec<Definition>,
        references: Vec<Reference>,
        calls: Vec<CallEdge>,
        inherits: Vec<InheritEdge>,
    ) -> (r: Self)
        ensures
            r@ == (IndexView {
                files: text::views(files@),
                definitions: text::views(definitions@),
                references: text::views(references@),
                calls: text::views(calls@),
                inherits: text::views(inherits@),
            }),
    {
        let (defs_by_name, defs_by_qualified_name) = index_definitions(&definitions);
        let refs_by_name = index_references(&references);
        let (callers, callees) = index_calls(&calls);
        let (inherits_from, base_of) = index_inherits(&inherits);
        Index {
            files,
            definitions,
            references,
            calls,
            inherits,
            defs_by_name,
            defs_by_qualified_name,
            refs_by_name,
            callers,
            callees,
            inherits_from,
            base_of,
        }
    }

    /// The definition with an identifier.
    pub fn resolve(&self, id: DefId) -> (r: &Definition)
        requires
            id.0 < self@.definitions.len(),
        ensures
            r@ == self@.definitions[id.0 as int],
    {
        &self.definitions[id.0]
    }

    /// The definitions at positions.
    fn pick(&self, at: &Vec<usize>) -> (r: Vec<&Definition>)
        requires
            forall|i: int| 0 <= i < at@.len() ==> (#[trigger] at@[i]) < self.definitions@.len(),
        ensures
            text::views(r@) == picked(self@.definitions, at@),
    {
        let mut r: Vec<&Definition> = Vec::new();
        let mut i: usize = 0;
        while i < at.len()
            invariant
                forall|i: int| 0 <= i < at@.len() ==> (#[trigger] at@[i]) < self.definitions@.len(),
                i <= at@.len(),
                text::views(r@) == picked(self@.definitions, at@).take(i as int),
            decreases at@.len() - i,
        {
            let d = &self.definitions[at[i]];
            proof {
                text::lemma_views_push(r@, d);
                assert(picked(self@.definitions, at@).take(i + 1) =~= picked(
                    self@.definitions,
                    at@,
                ).take(i as int).push(d@));
            }
            r.push(d);
            i = i + 1;
        }
        assert(picked(self@.definitions, at@).take(i as int) =~= picked(self@.definitions, at@));
        r
    }

    /// The definitions that a name stands for: exact match on qualified or simple name.
    pub fn find_definition(&self, name: &str) -> (r: Vec<&Definition>)
        ensures
            text::views(r@) == defined_as(self@.definitions, name@),
    {
        self.definitions_for_name(name)
    }

    /// The definitions that a name stands for.
    fn definitions_for_name(&self, name: &str) -> (r: Vec<&Definition>)
        ensures
            text::views(r@) == defined_as(self@.definitions, name@),
    {
        proof {
            use_type_invariant(self);
            assert(self.definitions.len() == self.definitions@.len());
            lemma_spots(names(self@.definitions), name@);
            lemma_spots(qualified_names(self@.definitions), name@);
        }
        if let Some(exact) = self.defs_by_qualified_name.get(name) {
            let n = exact.len();
            if n > 0 {
                let mut last: Vec<usize> = Vec::new();
                last.push(exact[n - 1]);
                assert(last@ =~= seq![exact@.last()]);
                assert(spots(qualified_names(self@.definitions), name@)[n - 1] == exact@[n - 1]);
                return self.pick(&last);
            }
        }
        match self.defs_by_name.get(name) {
            Some(at) => self.pick(at),
            None => {
                let r: Vec<&Definition> = Vec::new();
                assert(text::views(r@) =~= defined_as(self@.definitions, name@));
                r
            },
        }
    }

    /// The definition that an end of a call or of an inheritance edge is linked to.
    pub fn link_name(&self, name: &str) -> (r: Option<DefId>)
        ensures
            r == linked_to(self@.definitions, name@),
    {
        proof {
            use_type_invariant(self);
        }
        if let Some(exact) = self.defs_by_qualified_name.get(name) {
            let n = exact.len();
            if n > 0 {
                return Some(DefId(exact[n - 1]));
            }
        }
        match self.defs_by_name.get(name) {
            Some(at) => if at.len() == 1 {
                Some(DefId(at[0]))
            } else {
                None
            },
            None => None,
        }
    }

    /// All usage sites of a name.
    pub fn find_references(&self, name: &str) -> (r: Vec<&Reference>)
        ensures
            text::views(r@) == picked(
                self@.references,
                spots(used_names(self@.references), name@),
            ),
    {
        proof {
            use_type_invariant(self);
            assert(self.references.len() == self.references@.len());
            lemma_spots(used_names(self@.references), name@);
        }
        let mut r: Vec<&Reference> = Vec::new();
        let ghost wanted = picked(self@.references, spots(used_names(self@.references), name@));
        if let Some(at) = self.refs_by_name.get(name) {
            let mut i: usize = 0;
            assert(text::views(r@) =~= wanted.take(0));
            while i < at.len()
                invariant
                    at@ == spots(used_names(self@.references), name@),
                    wanted == picked(self@.references, at@),
                    forall|k: int| 0 <= k < at@.len() ==> (#[trigger] at@[k]) < self.references@.len(),
                    i <= at@.len(),
                    text::views(r@) == wanted.take(i as int),
                decreases at@.len() - i,
            {
                let x = &self.references[at[i]];
                proof {
                    text::lemma_views_push(r@, x);
                    assert(wanted.take(i + 1) =~= wanted.take(i as int).push(x@));
                }
                r.push(x);
                i = i + 1;
            }
            assert(wanted.take(i as int) =~= wanted);
        } else {
            assert(text::views(r@) =~= wanted);
        }
        r
    }

    /// The functions that call a name, one call after the other.
    pub fn find_callers(&self, name: &str) -> (r: Vec<&Definition>)
        ensures
            text::views(r@) == all_defined_as(
                self@.definitions,
                caller_names(self@.calls),
                spots(callee_names(self@.calls), name@),
            ),
    {
        let mut r: Vec<&Definition> = Vec::new();
        let ghost keys = caller_names(self@.calls);
        let ghost wanted = spots(callee_names(self@.calls), name@);
        proof {
            use_type_invariant(self);
            assert(self.calls.len() == self.calls@.len());
            lemma_spots(callee_names(self@.calls), name@);
        }
        if let Some(at) = self.callers.get(name) {
            let mut i: usize = 0;
            assert(text::views(r@) =~= all_defined_as(self@.definitions, keys, at@.take(0)));
            while i < at.len()
                invariant
                    at@ == wanted,
                    keys == caller_names(self@.calls),
                    forall|k: int| 0 <= k < at@.len() ==> (#[trigger] at@[k]) < self.calls@.len(),
                    i <= at@.len(),
                    text::views(r@) == all_defined_as(
                        self@.definitions,
                        keys,
                        at@.take(i as int),
                    ),
                decreases at@.len() - i,
            {
                let c: usize = at[i];
                let mut more = self.definitions_for_name(self.calls[c].caller_name.as_str());
                proof {
                    assert(keys[c as int] == self.calls@[c as int].caller_name@);
                    assert(at@.take(i + 1).drop_last() =~= at@.take(i as int));
                    assert(text::views(r@ + more@) =~= text::views(r@) + text::views(more@));
                }
                r.append(&mut more);
                i = i + 1;
            }
            assert(at@.take(i as int) =~= at@);
        } else {
            assert(text::views(r@) =~= all_defined_as(self@.definitions, keys, wanted));
        }
        r
    }

    /// The functions that a name calls, one call after the other.
    pub fn find_callees(&self, name: &str) -> (r: Vec<&Definition>)
        ensures
            text::views(r@) == all_defined_as(
                self@.definitions,
                callee_names(self@.calls),
                spots(caller_names(self@.calls), name@),
            ),
    {
        let mut r: Vec<&Definition> = Vec::new();
        let ghost keys = callee_names(self@.calls);
        let ghost wanted = spots(caller_names(self@.calls), name@);
        proof {
            use_type_invariant(self);
            assert(self.calls.len() == self.calls@.len());
            lemma_spots(caller_names(self@.calls), name@);
        }
        if let Some(at) = self.callees.get(name) {
            let mut i: usize = 0;
            assert(text::views(r@) =~= all_defined_as(self@.definitions, keys, at@.take(0)));
            while i < at.len()
                invariant
                    at@ == wanted,
                    keys == callee_names(self@.calls),
                    forall|k: int| 0 <= k < at@.len() ==> (#[trigger] at@[k]) < self.calls@.len(),
                    i <= at@.len(),
                    text::views(r@) == all_defined_as(
                        self@.definitions,
                        keys,
                        at@.take(i as int),
                    ),
                decreases at@.len() - i,
            {
                let c: usize = at[i];
                let mut more = self.definitions_for_name(self.calls[c].callee_name.as_str());
                proof {
                    assert(keys[c as int] == self.calls@[c as int].callee_name@);
                    assert(at@.take(i + 1).drop_last() =~= at@.take(i as int));
                    assert(text::views(r@ + more@) =~= text::views(r@) + text::views(more@));
                }
                r.append(&mut more);
                i = i + 1;
            }
            assert(at@.take(i as int) =~= at@);
        } else {
            assert(text::views(r@) =~= all_defined_as(self@.definitions, keys, wanted));
        }
        r
    }

    /// Case-insensitive substring search over the names of definitions.
    pub fn search_symbols(&self, pattern: &str) -> (r: Vec<&Definition>)
        ensures
            text::views(r@) == search(self@.definitions, pattern@),
    {
        let lower = pattern.to_lowercase();
        let mut small: Vec<String> = Vec::new();
        let ghost wanted = names(self@.definitions).map_values(|n: Seq<char>| lowered(n));
        let mut i: usize = 0;
        while i < self.definitions.len()
            invariant
                wanted == names(self@.definitions).map_values(|n: Seq<char>| lowered(n)),
                i <= self.definitions@.len(),
                text::views(small@) == wanted.take(i as int),
            decreases self.definitions@.len() - i,
        {
            let n = self.definitions[i].name.as_str().to_lowercase();
            proof {
                text::lemma_views_push(small@, n);
                assert(wanted.take(i + 1) =~= wanted.take(i as int).push(n@));
            }
            small.push(n);
            i = i + 1;
        }
        assert(wanted.take(i as int) =~= wanted);
        let at = find_holding(&small, lower.as_str());
        proof {
            lemma_holding(wanted, lower@);
        }
        self.pick(&at)
    }

    /// Base and derived classes of a class, by its qualified or its simple name.
    pub fn class_hierarchy(&self, class_name: &str) -> (r: ClassHierarchy<'_>)
        ensures
            text::views(r.bases@) == direct_bases(self@, class_name@),
            text::views(r.derived@) == direct_derived(self@, class_name@),
    {
        ClassHierarchy {
            bases: self.find_bases(class_name),
            derived: self.find_derived(class_name),
        }
    }

    /// The positions of the edges that mean a class, as their derived class or as their base.
    fn edges_of(&self, class_name: &str, as_derived: bool) -> (r: Vec<usize>)
        ensures
            r@ == class_spots(
                self@.definitions,
                if as_derived {
                    derived_names(self@.inherits)
                } else {
                    base_names(self@.inherits)
                },
                class_name@,
            ),
    {
        let ghost keys = if as_derived {
            derived_names(self@.inherits)
        } else {
            base_names(self@.inherits)
        };
        let ghost defs = self@.definitions;
        let ghost p = means_class(defs, keys, class_name@);
        let simple = simple_name(class_name);
        proof {
            use_type_invariant(self);
            assert(self.inherits.len() == self.inherits@.len());
            assert(self.definitions.len() == self.definitions@.len());
            lemma_spots(qualified_names(defs), class_name@);
            lemma_loose_spots(keys, simple@);
            lemma_class_spots_are_loose(defs, keys, class_name@, keys.len() as int);
            assert(keys.take(keys.len() as int) =~= keys);
        }
        let known = match self.defs_by_qualified_name.get(class_name) {
            Some(at) => at.len() > 0,
            None => false,
        };
        proof {
            let exact = spots(qualified_names(defs), class_name@);
            if known {
                assert(qualified_names(defs)[exact[0] as int] == class_name@);
            }
            if qualified_names(defs).contains(class_name@) {
                let k = choose|k: int|
                    0 <= k < qualified_names(defs).len() && qualified_names(defs)[k] == class_name@;
                assert(exact.contains(k as usize));
            }
        }
        let found = if as_derived {
            self.inherits_from.get(simple.as_str())
        } else {
            self.base_of.get(simple.as_str())
        };
        let mut r: Vec<usize> = Vec::new();
        proof {
            reveal(Seq::filter);
        }
        if let Some(at) = found {
            let mut i: usize = 0;
            assert(r@ =~= at@.take(0).filter(p));
            while i < at.len()
                invariant
                    simple@ == text::simple(class_name@),
                    defs == self@.definitions,
                    known == qualified_names(defs).contains(class_name@),
                    keys == if as_derived {
                        derived_names(self@.inherits)
                    } else {
                        base_names(self@.inherits)
                    },
                    p == means_class(defs, keys, class_name@),
                    forall|k: int| 0 <= k < at@.len() ==> (#[trigger] at@[k]) < self.inherits@.len(),
                    i <= at@.len(),
                    r@ == at@.take(i as int).filter(p),
                decreases at@.len() - i,
            {
                let e: usize = at[i];
                let key = if as_derived {
                    self.inherits[e].derived_name.as_str()
                } else {
                    self.inherits[e].base_name.as_str()
                };
                proof {
                    reveal(Seq::filter);
                    assert(keys[e as int] == key@);
                    assert(at@.take(i + 1).drop_last() =~= at@.take(i as int));
                    assert(at@.take(i + 1).last() == e);
                }
                let own = simple_name(key);
                if same(key, class_name) || same(own.as_str(), class_name) || known && same(
                    key,
                    simple.as_str(),
                ) {
                    r.push(e);
                }
                i = i + 1;
            }
            assert(at@.take(i as int) =~= at@);
        } else {
            assert(loose_spots(keys, simple@) =~= Seq::empty());
        }
        r
    }

    /// The definitions of the classes that a class derives from.
    fn find_bases(&self, class_name: &str) -> (r: Vec<&Definition>)
        ensures
            text::views(r@) == direct_bases(self@, class_name@),
    {
        let mut r: Vec<&Definition> = Vec::new();
        let ghost keys = base_names(self@.inherits);
        let at = self.edges_of(class_name, true);
        proof {
            assert(self.inherits.len() == self.inherits@.len());
            lemma_class_spots(
                self@.definitions,
                derived_names(self@.inherits),
                class_name@,
            );
        }
        let mut i: usize = 0;
        assert(text::views(r@) =~= all_defined_as(self@.definitions, keys, at@.take(0)));
        while i < at.len()
            invariant
                keys == base_names(self@.inherits),
                forall|k: int| 0 <= k < at@.len() ==> (#[trigger] at@[k]) < self.inherits@.len(),
                i <= at@.len(),
                text::views(r@) == all_defined_as(self@.definitions, keys, at@.take(i as int)),
            decreases at@.len() - i,
        {
            let e: usize = at[i];
            let mut more = self.definitions_for_name(self.inherits[e].base_name.as_str());
            proof {
                assert(keys[e as int] == self.inherits@[e as int].base_name@);
                assert(at@.take(i + 1).drop_last() =~= at@.take(i as int));
                assert(text::views(r@ + more@) =~= text::views(r@) + text::views(more@));
            }
            r.append(&mut more);
            i = i + 1;
        }
        assert(at@.take(i as int) =~= at@);
        r
    }

    /// The definitions of the classes that derive from a class.
    fn find_derived(&self, class_name: &str) -> (r: Vec<&Definition>)
        ensures
            text::views(r@) == direct_derived(self@, class_name@),
    {
        let mut r: Vec<&Definition> = Vec::new();
        let ghost keys = derived_names(self@.inherits);
        let at = self.edges_of(class_name, false);
        proof {
            assert(self.inherits.len() == self.inherits@.len());
            lemma_class_spots(
                self@.definitions,
                base_names(self@.inherits),
                class_name@,
            );
        }
        let mut i: usize = 0;
        assert(text::views(r@) =~= all_defined_as(self@.definitions, keys, at@.take(0)));
        while i < at.len()
            invariant
                keys == derived_names(self@.inherits),
                forall|k: int| 0 <= k < at@.len() ==> (#[trigger] at@[k]) < self.inherits@.len(),
                i <= at@.len(),
                text::views(r@) == all_defined_as(self@.definitions, keys, at@.take(i as int)),
            decreases at@.len() - i,
        {
            let e: usize = at[i];
            let mut more = self.definitions_for_name(self.inherits[e].derived_name.as_str());
            proof {
                assert(keys[e as int] == self.inherits@[e as int].derived_name@);
                assert(at@.take(i + 1).drop_last() =~= at@.take(i as int));
                assert(text::views(r@ + more@) =~= text::views(r@) + text::views(more@));
            }
            r.append(&mut more);
            i = i + 1;
        }
        assert(at@.take(i as int) =~= at@);
        r
    }

    /// All definitions.
    pub fn definitions(&self) -> (r: &[Definition])
        ensures
            text::views(r@) == self@.definitions,
    {
        self.definitions.as_slice()
    }

    /// All references.
    pub fn references(&self) -> (r: &[Reference])
        ensures
            text::views(r@) == self@.references,
    {
        self.references.as_slice()
    }

    /// All call edges.
    pub fn calls(&self) -> (r: &[CallEdge])
        ensures
            text::views(r@) == self@.calls,
    {
        self.calls.as_slice()
    }

    /// All inheritance edges.
    pub fn inherits(&self) -> (r: &[InheritEdge])
        ensures
            text::views(r@) == self@.inherits,
    {
        self.inherits.as_slice()
    }

    /// All indexed files.
    pub fn files(&self) -> (r: &[IndexedFile])
        ensures
            text::views(r@) == self@.files,
    {
        self.files.as_slice()
    }

    /// The number of definitions.
    pub fn definition_count(&self) -> (r: usize)
        ensures
            r == self@.definitions.len(),
    {
        self.definitions.len()
    }

    /// The number of references.
    pub fn reference_count(&self) -> (r: usize)
        ensures
            r == self@.references.len(),
    {
        self.references.len()
    }
}

/// The positions of texts that hold another are positions of the list.
pub proof fn lemma_holding(texts: Seq<Seq<char>>, part: Seq<char>)
    requires
        texts.len() <= usize::MAX,
    ensures
        ascending(holding(texts, part), texts.len() as int),
        forall|i: int|
            0 <= i < holding(texts, part).len() ==> text::contains_text(
                texts[(#[trigger] holding(texts, part)[i]) as int],
                part,
            ),
        forall|j: usize|
            j < texts.len() && text::contains_text(texts[j as int], part)
                ==> #[trigger] holding(texts, part).contains(j),
    decreases texts.len(),
{
    if texts.len() > 0 {
        let short = texts.drop_last();
        let before = holding(short, part);
        let now = holding(texts, part);
        lemma_holding(short, part);
        assert forall|i: int| 0 <= i < now.len() implies now[i] < texts.len()
            && text::contains_text(texts[(#[trigger] now[i]) as int], part) by {
            if i < before.len() {
                assert(now[i] == before[i]);
                assert(short[before[i] as int] == texts[now[i] as int]);
            }
        }
        assert forall|j: usize|
            j < texts.len() && text::contains_text(texts[j as int], part) implies #[trigger]
            now.contains(j) by {
            if j < short.len() {
                assert(short[j as int] == texts[j as int]);
                assert(before.contains(j));
                let k = choose|k: int| 0 <= k < before.len() && before[k] == j;
                assert(now[k] == j);
            } else {
                assert(now[now.len() - 1] == j);
            }
        }
    }
}

/// An index without anything.
pub open spec fn empty_index() -> IndexView {
    IndexView {
        files: Seq::empty(),
        definitions: Seq::empty(),
        references: Seq::empty(),
        calls: Seq::empty(),
        inherits: Seq::empty(),
    }
}

/// What is held after the symbols of one more file were added, in the order of the file.
pub open spec fn with_file(ix: IndexView, f: FileSymbolsView) -> IndexView {
    IndexView {
        files: ix.files.push(
            IndexedFileView {
                path: f.file,
                language: f.language,
                checksum: None,
                symbols_checksum: None,
            },
        ),
        definitions: ix.definitions + f.definitions,
        references: ix.references + f.references,
        calls: ix.calls + f.calls,
        inherits: ix.inherits + f.inherits,
    }
}

/// What is held after the symbols of some files were added.
pub open spec fn merged(files: Seq<FileSymbolsView>) -> IndexView
    decreases files.len(),
{
    if files.len() == 0 {
        empty_index()
    } else {
        with_file(merged(files.drop_last()), files.last())
    }
}

/// The index with its references resolved against its definitions.
pub open spec fn with_references_resolved(ix: IndexView) -> IndexView {
    IndexView {
        references: ix.references.map_values(|r: ReferenceView| resolved(ix.definitions, r)),
        ..ix
    }
}

/// Builds an [Index] from [FileSymbols] produced by parsers.
pub struct IndexBuilder {
    files: Vec<IndexedFile>,
    definitions: Vec<Definition>,
    references: Vec<Reference>,
    calls: Vec<CallEdge>,
    inherits: Vec<InheritEdge>,
}

impl View for IndexBuilder {
    type V = IndexView;

    closed spec fn view(&self) -> IndexView {
        IndexView {
            files: text::views(self.files@),
            definitions: text::views(self.definitions@),
            references: text::views(self.references@),
            calls: text::views(self.calls@),
            inherits: text::views(self.inherits@),
        }
    }
}

/// Resolves references against definitions.
fn resolve_references(definitions: &Vec<Definition>, references: &mut Vec<Reference>)
    ensures
        text::views(final(references)@) == text::views(old(references)@).map_values(
            |r: ReferenceView| resolved(text::views(definitions@), r),
        ),
{
    let ghost defs = text::views(definitions@);
    let ghost before = text::views(references@);
    let ghost wanted = before.map_values(|r: ReferenceView| resolved(defs, r));
    let (by_name, by_qualified_name) = index_definitions(definitions);
    let mut i: usize = 0;
    while i < references.len()
        invariant
            defs == text::views(definitions@),
            looks_up(by_name, names(defs)),
            looks_up(by_qualified_name, qualified_names(defs)),
            wanted == before.map_values(|r: ReferenceView| resolved(defs, r)),
            i <= references@.len(),
            references@.len() == before.len(),
            forall|j: int| 0 <= j < i ==> (#[trigger] references@[j])@ == wanted[j],
            forall|j: int| i <= j < before.len() ==> (#[trigger] references@[j])@ == before[j],
        decreases references@.len() - i,
    {
        let ghost held = references@[i as int]@;
        let id: Option<DefId> = resolve_in(
            &by_qualified_name,
            &by_name,
            references[i].name.as_str(),
            Ghost(defs),
        );
        assert(id == resolution(defs, held.name));
        if id.is_some() {
            let mut r = references[i].clone();
            r.def_id = id;
            references.set(i, r);
        }
        assert(references@[i as int]@ == wanted[i as int]);
        i = i + 1;
    }
    assert(text::views(references@) =~= wanted);
}

impl IndexBuilder {
    /// A builder without anything.
    pub fn new() -> (r: Self)
        ensures
            r@ == empty_index(),
    {
        let r = IndexBuilder {
            files: Vec::new(),
            definitions: Vec::new(),
            references: Vec::new(),
            calls: Vec::new(),
            inherits: Vec::new(),
        };
        proof {
            r.lemma_empty();
        }
        r
    }

    /// A builder without anything that has room for what is about to come.
    pub fn with_capacity(
        files: usize,
        definitions: usize,
        references: usize,
        calls: usize,
        inherits: usize,
    ) -> (r: Self)
        ensures
            r@ == empty_index(),
    {
        let r = IndexBuilder {
            files: Vec::with_capacity(files),
            definitions: Vec::with_capacity(definitions),
            references: Vec::with_capacity(references),
            calls: Vec::with_capacity(calls),
            inherits: Vec::with_capacity(inherits),
        };
        proof {
            r.lemma_empty();
        }
        r
    }

    proof fn lemma_empty(self)
        requires
            self.files@.len() == 0,
            self.definitions@.len() == 0,
            self.references@.len() == 0,
            self.calls@.len() == 0,
            self.inherits@.len() == 0,
        ensures
            self@ == empty_index(),
    {
        assert(self@.files =~= Seq::empty());
        assert(self@.definitions =~= Seq::empty());
        assert(self@.references =~= Seq::empty());
        assert(self@.calls =~= Seq::empty());
        assert(self@.inherits =~= Seq::empty());
    }

    /// Adds the symbols of one file.
    pub fn add_file(&mut self, symbols: FileSymbols)
        ensures
            final(self)@ == with_file(old(self)@, symbols@),
    {
        let file = IndexedFile {
            path: symbols.file,
            language: symbols.language,
            checksum: None,
            symbols_checksum: None,
        };
        let mut definitions = symbols.definitions;
        let mut references = symbols.references;
        let mut calls = symbols.calls;
        let mut inherits = symbols.inherits;
        self.files.push(file);
        self.definitions.append(&mut definitions);
        self.references.append(&mut references);
        self.calls.append(&mut calls);
        self.inherits.append(&mut inherits);
        proof {
            let wanted = with_file(old(self)@, symbols@);
            assert(self@.files =~= wanted.files);
            assert(self@.definitions =~= wanted.definitions);
            assert(self@.references =~= wanted.references);
            assert(self@.calls =~= wanted.calls);
            assert(self@.inherits =~= wanted.inherits);
        }
    }

    /// The index over all that was added, with its references resolved.
    pub fn build(self) -> (r: Index)
        ensures
            r@ == with_references_resolved(self@),
    {
        let mut references = self.references;
        resolve_references(&self.definitions, &mut references);
        Index::new(self.files, self.definitions, references, self.calls, self.inherits)
    }
}

impl Default for IndexBuilder {
    fn default() -> (r: Self)
        ensures
            r@ == empty_index(),
    {
        Self::new()
    }
}

} // verus!
