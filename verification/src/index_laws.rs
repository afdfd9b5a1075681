//! What the queries of an index promise.
use crate::index::IndexView;
use crate::index;
use crate::text;
use crate::types::{DefId, DefinitionView, FileSymbolsView, ReferenceView};
use vstd::prelude::*;

verus! {

/// Whether a definition goes by a name, qualified or simple.
pub open spec fn goes_by(d: DefinitionView, name: Seq<char>) -> bool {
    d.qualified_name == name || d.name == name
}

/// A definition is found only under its qualified or its simple name. Where a definition goes by
/// a name, something is found under it; and where the name is nobody's qualified name,
/// everything with that simple name is found.
pub proof fn law_find_definition_is_exact(definitions: Seq<DefinitionView>, name: Seq<char>)
    requires
        definitions.len() <= usize::MAX,
    ensures
        forall|i: int|
            0 <= i < index::defined_as(definitions, name).len() ==> goes_by(
                #[trigger] index::defined_as(definitions, name)[i],
                name,
            ),
        (exists|j: int| 0 <= j < definitions.len() && goes_by(#[trigger] definitions[j], name))
            ==> index::defined_as(definitions, name).len() > 0,
        (forall|j: int| 0 <= j < definitions.len() ==> (#[trigger] definitions[j]).qualified_name != name)
            ==> forall|j: int|
            0 <= j < definitions.len() && (#[trigger] definitions[j]).name == name
                ==> index::defined_as(definitions, name).contains(definitions[j]),
{
    let all = index::defined_as(definitions, name);
    let at = index::meant(definitions, name);
    let exact = index::spots(index::qualified_names(definitions), name);
    let simple = index::spots(index::names(definitions), name);
    index::lemma_spots(index::qualified_names(definitions), name);
    index::lemma_spots(index::names(definitions), name);
    assert forall|i: int| 0 <= i < all.len() implies goes_by(#[trigger] all[i], name) by {
        if exact.len() > 0 {
            assert(index::qualified_names(definitions)[exact[exact.len() - 1] as int] == name);
        } else {
            assert(index::names(definitions)[simple[i] as int] == name);
        }
    }
    if exists|j: int| 0 <= j < definitions.len() && goes_by(#[trigger] definitions[j], name) {
        let j = choose|j: int| 0 <= j < definitions.len() && goes_by(#[trigger] definitions[j], name);
        if definitions[j].qualified_name == name {
            assert(index::qualified_names(definitions)[j] == name);
            assert(exact.contains(j as usize));
        } else {
            assert(index::names(definitions)[j] == name);
            assert(simple.contains(j as usize));
        }
        assert(all.len() == at.len());
    }
    if forall|j: int|
        0 <= j < definitions.len() ==> (#[trigger] definitions[j]).qualified_name != name {
        if exact.len() > 0 {
            assert(index::qualified_names(definitions)[exact[0] as int] == name);
            assert(definitions[exact[0] as int].qualified_name == name);
        }
        assert forall|j: int|
            0 <= j < definitions.len() && (#[trigger] definitions[j]).name
                == name implies all.contains(definitions[j]) by {
            assert(index::names(definitions)[j] == name);
            assert(simple.contains(j as usize));
            let k = choose|k: int| 0 <= k < simple.len() && simple[k] == j as usize;
            assert(all[k] == definitions[j]);
        }
    }
}

/// The references found under a name are exactly those that use it.
pub proof fn law_find_references_is_exact(references: Seq<ReferenceView>, name: Seq<char>)
    requires
        references.len() <= usize::MAX,
    ensures
        ({
            let found = index::picked(references, index::spots(index::used_names(references), name));
            &&& forall|i: int| 0 <= i < found.len() ==> (#[trigger] found[i]).name == name
                && references.contains(found[i])
            &&& forall|j: int|
                0 <= j < references.len() && (#[trigger] references[j]).name == name
                    ==> found.contains(references[j])
        }),
{
    let at = index::spots(index::used_names(references), name);
    let found = index::picked(references, at);
    index::lemma_spots(index::used_names(references), name);
    assert forall|i: int| 0 <= i < found.len() implies (#[trigger] found[i]).name == name
        && references.contains(found[i]) by {
        assert(index::used_names(references)[at[i] as int] == name);
        assert(references[at[i] as int] == found[i]);
    }
    assert forall|j: int|
        0 <= j < references.len() && (#[trigger] references[j]).name
            == name implies found.contains(references[j]) by {
        assert(index::used_names(references)[j] == name);
        assert(at.contains(j as usize));
        let k = choose|k: int| 0 <= k < at.len() && at[k] == j as usize;
        assert(found[k] == references[j]);
    }
}

/// Whether a name is the qualified name of a definition.
pub open spec fn is_qualified_name(definitions: Seq<DefinitionView>, name: Seq<char>) -> bool {
    exists|k: int| 0 <= k < definitions.len() && (#[trigger] definitions[k]).qualified_name == name
}

/// Whether a definition is the only one with a simple name.
pub open spec fn only_one_named(
    definitions: Seq<DefinitionView>,
    name: Seq<char>,
    j: int,
) -> bool {
    &&& definitions[j].name == name
    &&& forall|k: int|
        0 <= k < definitions.len() && (#[trigger] definitions[k]).name == name ==> k == j
}

/// Whether a definition is the only one with a qualified name.
pub open spec fn only_one_qualified(
    definitions: Seq<DefinitionView>,
    name: Seq<char>,
    j: int,
) -> bool {
    &&& definitions[j].qualified_name == name
    &&& forall|k: int|
        0 <= k < definitions.len() && (#[trigger] definitions[k]).qualified_name == name ==> k == j
}

/// A name resolves to a definition exactly where that is the only one with it as its qualified
/// name or, the name being nobody's qualified name, the only one with it as its simple name. So
/// an ambiguous name is left unresolved.
pub proof fn law_resolution_is_unambiguous(definitions: Seq<DefinitionView>, name: Seq<char>)
    requires
        definitions.len() <= usize::MAX,
    ensures
        index::resolution(definitions, name) matches Some(id) ==> id.0 < definitions.len() && goes_by(
            definitions[id.0 as int],
            name,
        ),
        forall|j: int| #![trigger definitions[j]]
            0 <= j < definitions.len() ==> (index::resolution(definitions, name) == Some(
                DefId(j as usize),
            ) <==> if is_qualified_name(definitions, name) {
                only_one_qualified(definitions, name, j)
            } else {
                only_one_named(definitions, name, j)
            }),
{
    let exact = index::spots(index::qualified_names(definitions), name);
    let simple = index::spots(index::names(definitions), name);
    index::lemma_spots(index::qualified_names(definitions), name);
    index::lemma_spots(index::names(definitions), name);
    if exact.len() > 0 {
        assert(index::qualified_names(definitions)[exact[0] as int] == name);
        assert(definitions[exact[0] as int].qualified_name == name);
        assert(is_qualified_name(definitions, name));
    } else if simple.len() == 1 {
        assert(index::names(definitions)[simple[0] as int] == name);
    }
    if is_qualified_name(definitions, name) {
        let k = choose|k: int|
            0 <= k < definitions.len() && (#[trigger] definitions[k]).qualified_name == name;
        assert(index::qualified_names(definitions)[k] == name);
        assert(exact.contains(k as usize));
    }
    assert forall|j: int| #![trigger definitions[j]] 0 <= j < definitions.len() implies (
    index::resolution(definitions, name) == Some(DefId(j as usize)) <==> if is_qualified_name(
        definitions,
        name,
    ) {
        only_one_qualified(definitions, name, j)
    } else {
        only_one_named(definitions, name, j)
    }) by {
        lemma_only_one(definitions, name, j);
        lemma_only_one_qualified(definitions, name, j);
    }
}

proof fn lemma_only_one_qualified(definitions: Seq<DefinitionView>, name: Seq<char>, j: int)
    requires
        definitions.len() <= usize::MAX,
        0 <= j < definitions.len(),
    ensures
        only_one_qualified(definitions, name, j) <==> (index::spots(
            index::qualified_names(definitions),
            name,
        ).len() == 1 && index::spots(index::qualified_names(definitions), name)[0] == j),
{
    let keys = index::qualified_names(definitions);
    let exact = index::spots(keys, name);
    index::lemma_spots(keys, name);
    if only_one_qualified(definitions, name, j) {
        assert(keys[j] == name);
        assert(exact.contains(j as usize));
        if exact.len() > 1 {
            assert(keys[exact[0] as int] == name && keys[exact[1] as int] == name);
            assert(definitions[exact[0] as int].qualified_name == name);
            assert(definitions[exact[1] as int].qualified_name == name);
            assert(exact[0] < exact[1]);
        }
        assert(keys[exact[0] as int] == name);
        assert(definitions[exact[0] as int].qualified_name == name);
    }
    if exact.len() == 1 && exact[0] == j {
        assert(keys[exact[0] as int] == name);
        assert forall|k: int|
            0 <= k < definitions.len() && (#[trigger] definitions[k]).qualified_name
                == name implies k == j by {
            assert(keys[k] == name);
            assert(exact.contains(k as usize));
        }
    }
}

proof fn lemma_only_one(definitions: Seq<DefinitionView>, name: Seq<char>, j: int)
    requires
        definitions.len() <= usize::MAX,
        0 <= j < definitions.len(),
    ensures
        only_one_named(definitions, name, j) <==> (index::spots(index::names(definitions), name).len() == 1
            && index::spots(index::names(definitions), name)[0] == j),
{
    let keys = index::names(definitions);
    let simple = index::spots(keys, name);
    index::lemma_spots(keys, name);
    if only_one_named(definitions, name, j) {
        assert(keys[j] == name);
        assert(simple.contains(j as usize));
        if simple.len() > 1 {
            assert(keys[simple[0] as int] == name && keys[simple[1] as int] == name);
            assert(definitions[simple[0] as int].name == name);
            assert(definitions[simple[1] as int].name == name);
            assert(simple[0] < simple[1]);
        }
        assert(keys[simple[0] as int] == name);
        assert(definitions[simple[0] as int].name == name);
    }
    if simple.len() == 1 && simple[0] == j {
        assert(keys[simple[0] as int] == name);
        assert forall|k: int|
            0 <= k < definitions.len() && (#[trigger] definitions[k]).name == name implies k == j by {
            assert(keys[k] == name);
            assert(simple.contains(k as usize));
        }
    }
}

/// Building an index keeps every reference but for the definition that it resolves to, and
/// resolving twice changes nothing more.
pub proof fn law_resolving_is_idempotent(ix: IndexView)
    ensures
        index::with_references_resolved(index::with_references_resolved(ix)) == index::with_references_resolved(ix),
        index::with_references_resolved(ix).references.len() == ix.references.len(),
        forall|i: int|
            0 <= i < ix.references.len() ==> (#[trigger] index::with_references_resolved(ix).references[i]) == (
            ReferenceView { def_id: index::with_references_resolved(ix).references[i].def_id, ..ix.references[i] }),
{
    let once = index::with_references_resolved(ix);
    assert(index::with_references_resolved(once).references =~= once.references);
}

/// What is gathered for positions is what the names at these positions stand for.
pub proof fn lemma_all_defined_as(
    definitions: Seq<DefinitionView>,
    keys: Seq<Seq<char>>,
    at: Seq<usize>,
    d: DefinitionView,
)
    ensures
        index::all_defined_as(definitions, keys, at).contains(d) <==> exists|i: int|
            0 <= i < at.len() && index::defined_as(definitions, keys[(#[trigger] at[i]) as int]).contains(d),
    decreases at.len(),
{
    let all = index::all_defined_as(definitions, keys, at);
    if at.len() > 0 {
        let before = index::all_defined_as(definitions, keys, at.drop_last());
        let last = index::defined_as(definitions, keys[at.last() as int]);
        lemma_all_defined_as(definitions, keys, at.drop_last(), d);
        if all.contains(d) {
            let k = choose|k: int| 0 <= k < all.len() && all[k] == d;
            if k < before.len() {
                assert(before[k] == d);
                let i = choose|i: int|
                    0 <= i < at.drop_last().len() && index::defined_as(
                        definitions,
                        keys[(#[trigger] at.drop_last()[i]) as int],
                    ).contains(d);
                assert(at[i] == at.drop_last()[i]);
            } else {
                assert(last[k - before.len()] == d);
                assert(at[at.len() - 1] == at.last());
            }
        }
        if exists|i: int|
            0 <= i < at.len() && index::defined_as(definitions, keys[(#[trigger] at[i]) as int]).contains(d) {
            let i = choose|i: int|
                0 <= i < at.len() && index::defined_as(definitions, keys[(#[trigger] at[i]) as int]).contains(d);
            if i < at.len() - 1 {
                assert(at.drop_last()[i] == at[i]);
                assert(before.contains(d));
                let k = choose|k: int| 0 <= k < before.len() && before[k] == d;
                assert(all[k] == d);
            } else {
                let k = choose|k: int| 0 <= k < last.len() && last[k] == d;
                assert(all[before.len() + k] == d);
            }
        }
    }
}

/// The callers of a name are what the callers of the calls to it stand for, and its callees
/// what the names that it calls stand for.
pub proof fn law_callers_and_callees(ix: IndexView, name: Seq<char>, d: DefinitionView)
    requires
        ix.calls.len() <= usize::MAX,
    ensures
        index::all_defined_as(
            ix.definitions,
            index::caller_names(ix.calls),
            index::spots(index::callee_names(ix.calls), name),
        ).contains(d) <==> exists|j: int|
            0 <= j < ix.calls.len() && (#[trigger] ix.calls[j]).callee_name == name && index::defined_as(
                ix.definitions,
                ix.calls[j].caller_name,
            ).contains(d),
        index::all_defined_as(
            ix.definitions,
            index::callee_names(ix.calls),
            index::spots(index::caller_names(ix.calls), name),
        ).contains(d) <==> exists|j: int|
            0 <= j < ix.calls.len() && (#[trigger] ix.calls[j]).caller_name == name && index::defined_as(
                ix.definitions,
                ix.calls[j].callee_name,
            ).contains(d),
{
    let callers = index::caller_names(ix.calls);
    let callees = index::callee_names(ix.calls);
    index::lemma_spots(callees, name);
    index::lemma_spots(callers, name);
    let to = index::spots(callees, name);
    let from = index::spots(callers, name);
    lemma_all_defined_as(ix.definitions, callers, to, d);
    lemma_all_defined_as(ix.definitions, callees, from, d);
    if exists|i: int|
        0 <= i < to.len() && index::defined_as(ix.definitions, callers[(#[trigger] to[i]) as int]).contains(d) {
        let i = choose|i: int|
            0 <= i < to.len() && index::defined_as(ix.definitions, callers[(#[trigger] to[i]) as int]).contains(d);
        assert(callees[to[i] as int] == name);
        assert(ix.calls[to[i] as int].callee_name == name);
    }
    if exists|i: int|
        0 <= i < from.len() && index::defined_as(ix.definitions, callees[(#[trigger] from[i]) as int]).contains(d) {
        let i = choose|i: int|
            0 <= i < from.len() && index::defined_as(ix.definitions, callees[(#[trigger] from[i]) as int]).contains(d);
        assert(callers[from[i] as int] == name);
        assert(ix.calls[from[i] as int].caller_name == name);
    }
    assert forall|j: int|
        0 <= j < ix.calls.len() && (#[trigger] ix.calls[j]).callee_name == name && index::defined_as(
            ix.definitions,
            ix.calls[j].caller_name,
        ).contains(d) implies exists|i: int|
        0 <= i < to.len() && index::defined_as(ix.definitions, callers[(#[trigger] to[i]) as int]).contains(d) by {
        assert(callees[j] == name);
        assert(to.contains(j as usize));
        let k = choose|k: int| 0 <= k < to.len() && to[k] == j as usize;
        assert(callers[to[k] as int] == ix.calls[j].caller_name);
    }
    assert forall|j: int|
        0 <= j < ix.calls.len() && (#[trigger] ix.calls[j]).caller_name == name && index::defined_as(
            ix.definitions,
            ix.calls[j].callee_name,
        ).contains(d) implies exists|i: int|
        0 <= i < from.len() && index::defined_as(ix.definitions, callees[(#[trigger] from[i]) as int]).contains(d) by {
        assert(callers[j] == name);
        assert(from.contains(j as usize));
        let k = choose|k: int| 0 <= k < from.len() && from[k] == j as usize;
        assert(callees[from[k] as int] == ix.calls[j].callee_name);
    }
}

/// Every inheritance edge shows from both ends: what its base stands for is among the bases of
/// the derived class, and what its derived class stands for is among the classes derived from
/// the base. Each class may be asked for by the name on the edge, by that name without its
/// scopes, and by the qualified name of a definition that the edge names without its scopes.
/// Nothing else shows.
pub proof fn law_hierarchy_shows_every_edge(ix: IndexView, class_name: Seq<char>, d: DefinitionView)
    requires
        ix.inherits.len() <= usize::MAX,
    ensures
        index::direct_bases(ix, class_name).contains(d) <==> exists|j: int|
            0 <= j < ix.inherits.len() && index::names_class(
                ix.definitions,
                (#[trigger] ix.inherits[j]).derived_name,
                class_name,
            ) && index::defined_as(ix.definitions, ix.inherits[j].base_name).contains(d),
        index::direct_derived(ix, class_name).contains(d) <==> exists|j: int|
            0 <= j < ix.inherits.len() && index::names_class(
                ix.definitions,
                (#[trigger] ix.inherits[j]).base_name,
                class_name,
            ) && index::defined_as(ix.definitions, ix.inherits[j].derived_name).contains(d),
{
    let derived = index::derived_names(ix.inherits);
    let bases = index::base_names(ix.inherits);
    lemma_edges_found(ix, derived, bases, class_name, d);
    lemma_edges_found(ix, bases, derived, class_name, d);
    if index::direct_bases(ix, class_name).contains(d) {
        let j = choose|j: int|
            0 <= j < derived.len() && index::names_class(
                ix.definitions,
                #[trigger] derived[j],
                class_name,
            ) && index::defined_as(ix.definitions, bases[j]).contains(d);
        assert(ix.inherits[j].derived_name == derived[j]);
    }
    if index::direct_derived(ix, class_name).contains(d) {
        let j = choose|j: int|
            0 <= j < bases.len() && index::names_class(
                ix.definitions,
                #[trigger] bases[j],
                class_name,
            ) && index::defined_as(ix.definitions, derived[j]).contains(d);
        assert(ix.inherits[j].base_name == bases[j]);
    }
    assert forall|j: int|
        0 <= j < ix.inherits.len() implies (#[trigger] ix.inherits[j]).derived_name == derived[j]
        && ix.inherits[j].base_name == bases[j] by {}
}

proof fn lemma_edges_found(
    ix: IndexView,
    keys: Seq<Seq<char>>,
    others: Seq<Seq<char>>,
    class_name: Seq<char>,
    d: DefinitionView,
)
    requires
        keys.len() <= usize::MAX,
    ensures
        index::all_defined_as(
            ix.definitions,
            others,
            index::class_spots(ix.definitions, keys, class_name),
        ).contains(d) <==> exists|j: int|
            0 <= j < keys.len() && index::names_class(
                ix.definitions,
                #[trigger] keys[j],
                class_name,
            ) && index::defined_as(ix.definitions, others[j]).contains(d),
{
    let at = index::class_spots(ix.definitions, keys, class_name);
    index::lemma_class_spots(ix.definitions, keys, class_name);
    lemma_all_defined_as(ix.definitions, others, at, d);
    if exists|i: int|
        0 <= i < at.len() && index::defined_as(
            ix.definitions,
            others[(#[trigger] at[i]) as int],
        ).contains(d) {
        let i = choose|i: int|
            0 <= i < at.len() && index::defined_as(
                ix.definitions,
                others[(#[trigger] at[i]) as int],
            ).contains(d);
        assert(index::names_class(ix.definitions, keys[at[i] as int], class_name));
    }
    if exists|j: int|
        0 <= j < keys.len() && index::names_class(
            ix.definitions,
            #[trigger] keys[j],
            class_name,
        ) && index::defined_as(ix.definitions, others[j]).contains(d) {
        let j = choose|j: int|
            0 <= j < keys.len() && index::names_class(
                ix.definitions,
                #[trigger] keys[j],
                class_name,
            ) && index::defined_as(ix.definitions, others[j]).contains(d);
        assert(at.contains(j as usize));
        let k = choose|k: int| 0 <= k < at.len() && at[k] == j as usize;
        assert(index::defined_as(ix.definitions, others[at[k] as int]).contains(d));
    }
}

/// A class whose edge leaves out its scopes is found by its qualified name: the bases that the
/// edge names show for it, and so do the classes derived from it.
pub proof fn law_hierarchy_by_qualified_name(ix: IndexView, j: int, k: int, d: DefinitionView)
    requires
        ix.inherits.len() <= usize::MAX,
        0 <= j < ix.inherits.len(),
        0 <= k < ix.definitions.len(),
    ensures
        ix.inherits[j].derived_name == text::simple(ix.definitions[k].qualified_name)
            && index::defined_as(ix.definitions, ix.inherits[j].base_name).contains(d)
            ==> index::direct_bases(ix, ix.definitions[k].qualified_name).contains(d),
        ix.inherits[j].base_name == text::simple(ix.definitions[k].qualified_name)
            && index::defined_as(ix.definitions, ix.inherits[j].derived_name).contains(d)
            ==> index::direct_derived(ix, ix.definitions[k].qualified_name).contains(d),
{
    let name = ix.definitions[k].qualified_name;
    assert(index::qualified_names(ix.definitions)[k] == name);
    law_hierarchy_shows_every_edge(ix, name, d);
}

/// A search finds exactly the definitions whose name holds the pattern, both in lower case. It
/// does not tell patterns apart that differ in case only, such as ASCII texts that differ in
/// letters `A` to `Z` against `a` to `z`, and a name finds its definition.
pub proof fn law_search_ignores_case(
    definitions: Seq<DefinitionView>,
    pattern: Seq<char>,
    other: Seq<char>,
)
    requires
        definitions.len() <= usize::MAX,
    ensures
        text::is_ascii_text(pattern) && text::is_ascii_text(other) && text::ascii_lowered(pattern)
            == text::ascii_lowered(other) ==> index::search(definitions, pattern) == index::search(
            definitions,
            other,
        ),
        index::lowered(pattern) == index::lowered(other) ==> index::search(definitions, pattern) == index::search(
            definitions,
            other,
        ),
        forall|i: int|
            0 <= i < index::search(definitions, pattern).len() ==> text::contains_text(
                index::lowered((#[trigger] index::search(definitions, pattern)[i]).name),
                index::lowered(pattern),
            ),
        forall|j: int|
            0 <= j < definitions.len() && text::contains_text(
                index::lowered((#[trigger] definitions[j]).name),
                index::lowered(pattern),
            ) ==> index::search(definitions, pattern).contains(definitions[j]),
        forall|j: int|
            0 <= j < definitions.len() && (#[trigger] definitions[j]).name == pattern ==> index::search(
                definitions,
                pattern,
            ).contains(definitions[j]),
{
    let small = index::names(definitions).map_values(|n: Seq<char>| index::lowered(n));
    let at = index::holding(small, index::lowered(pattern));
    index::lemma_holding(small, index::lowered(pattern));
    assert forall|i: int|
        0 <= i < index::search(definitions, pattern).len() implies text::contains_text(
        index::lowered((#[trigger] index::search(definitions, pattern)[i]).name),
        index::lowered(pattern),
    ) by {
        assert(text::contains_text(small[at[i] as int], index::lowered(pattern)));
    }
    assert forall|j: int|
        0 <= j < definitions.len() && text::contains_text(
            index::lowered((#[trigger] definitions[j]).name),
            index::lowered(pattern),
        ) implies index::search(definitions, pattern).contains(definitions[j]) by {
        assert(text::contains_text(small[j], index::lowered(pattern)));
        assert(at.contains(j as usize));
        let k = choose|k: int| 0 <= k < at.len() && at[k] == j as usize;
        assert(index::search(definitions, pattern)[k] == definitions[j]);
    }
    assert forall|j: int|
        0 <= j < definitions.len() && (#[trigger] definitions[j]).name == pattern implies index::search(
        definitions,
        pattern,
    ).contains(definitions[j]) by {
        let s = index::lowered(pattern);
        assert(s.subrange(0, s.len() as int) =~= s);
        assert(text::found_at(s, s, 0));
        assert(text::contains_text(s, s));
    }
}

/// An ASCII name is found by every ASCII pattern that it holds when the letters `A` to `Z` of
/// both are lowered.
pub proof fn law_search_finds_ascii_names(
    definitions: Seq<DefinitionView>,
    pattern: Seq<char>,
    j: int,
)
    requires
        definitions.len() <= usize::MAX,
        0 <= j < definitions.len(),
        text::is_ascii_text(definitions[j].name),
        text::is_ascii_text(pattern),
        text::contains_text(
            text::ascii_lowered(definitions[j].name),
            text::ascii_lowered(pattern),
        ),
    ensures
        index::search(definitions, pattern).contains(definitions[j]),
{
    law_search_ignores_case(definitions, pattern, pattern);
}

/// An empty pattern finds every definition.
pub proof fn law_empty_pattern_finds_all(definitions: Seq<DefinitionView>)
    requires
        definitions.len() <= usize::MAX,
    ensures
        index::search(definitions, Seq::empty()) == definitions,
{
    let nothing = Seq::<char>::empty();
    let small = index::names(definitions).map_values(|n: Seq<char>| index::lowered(n));
    assert(index::lowered(nothing) =~= nothing);
    lemma_all_hold_nothing(small);
    assert(index::search(definitions, nothing) =~= definitions);
}

/// Every text holds the empty one.
proof fn lemma_all_hold_nothing(texts: Seq<Seq<char>>)
    requires
        texts.len() <= usize::MAX,
    ensures
        index::holding(texts, Seq::empty()).len() == texts.len(),
        forall|i: int|
            0 <= i < texts.len() ==> (#[trigger] index::holding(texts, Seq::empty())[i]) == i,
    decreases texts.len(),
{
    if texts.len() > 0 {
        let nothing = Seq::<char>::empty();
        lemma_all_hold_nothing(texts.drop_last());
        assert(texts.last().subrange(0, 0) =~= nothing);
        assert(text::found_at(texts.last(), nothing, 0));
        assert(text::contains_text(texts.last(), nothing));
    }
}

/// An index over files holds the symbols of each of them, all and in order, and lists the files with
/// their languages: the index over one file is that file, and the index over more files is made up
/// of those over the first and over the others.
pub proof fn law_an_index_holds_its_files(
    f: FileSymbolsView,
    files: Seq<FileSymbolsView>,
    more: Seq<FileSymbolsView>,
)
    ensures
        ({
            let one = index::merged(seq![f]);
            &&& one.definitions == f.definitions
            &&& one.references == f.references
            &&& one.calls == f.calls
            &&& one.inherits == f.inherits
            &&& one.files.len() == 1
            &&& one.files[0].path == f.file
            &&& one.files[0].language == f.language
        }),
        ({
            let (a, b, all) = (index::merged(files), index::merged(more), index::merged(files + more));
            &&& all.definitions == a.definitions + b.definitions
            &&& all.references == a.references + b.references
            &&& all.calls == a.calls + b.calls
            &&& all.inherits == a.inherits + b.inherits
            &&& all.files == a.files + b.files
        }),
    decreases more.len(),
{
    reveal_with_fuel(index::merged, 2);
    let one = index::merged(seq![f]);
    assert(seq![f].drop_last() =~= Seq::empty());
    assert(one.definitions =~= f.definitions);
    assert(one.references =~= f.references);
    assert(one.calls =~= f.calls);
    assert(one.inherits =~= f.inherits);
    let (a, b, all) = (index::merged(files), index::merged(more), index::merged(files + more));
    if more.len() == 0 {
        assert(files + more =~= files);
    } else {
        law_an_index_holds_its_files(f, files, more.drop_last());
        assert((files + more).drop_last() =~= files + more.drop_last());
        assert((files + more).last() == more.last());
    }
    assert(all.definitions =~= a.definitions + b.definitions);
    assert(all.references =~= a.references + b.references);
    assert(all.calls =~= a.calls + b.calls);
    assert(all.inherits =~= a.inherits + b.inherits);
    assert(all.files =~= a.files + b.files);
}

/// Resolving the references of an index changes nothing but the definitions that they are linked to:
/// each is linked to the one definition that its name resolves to, and keeps its link where the
/// name resolves to none.
pub proof fn law_resolving_changes_links_alone(ix: IndexView, i: int)
    requires
        0 <= i < ix.references.len(),
    ensures
        ({
            let all = index::with_references_resolved(ix);
            let (r, s) = (ix.references[i], all.references[i]);
            &&& all.files == ix.files
            &&& all.definitions == ix.definitions
            &&& all.calls == ix.calls
            &&& all.inherits == ix.inherits
            &&& all.references.len() == ix.references.len()
            &&& s.name == r.name
            &&& s.location == r.location
            &&& s.context == r.context
            &&& index::resolution(ix.definitions, r.name) is Some ==> s.def_id == index::resolution(
                ix.definitions,
                r.name,
            )
            &&& index::resolution(ix.definitions, r.name) is None ==> s == r
        }),
{
}

} // verus!
