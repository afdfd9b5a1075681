//! What the lists of the commands keep.
use crate::hits;
use crate::index::IndexView;
use crate::index;
use crate::index_laws;
use crate::queries;
use crate::text;
use crate::types::{DefinitionView, ReferenceView};
use vstd::prelude::*;

verus! {

/// Whether no two definitions have the same qualified name.
pub open spec fn names_apart(defs: Seq<DefinitionView>) -> bool {
    forall|i: int, j: int|
        0 <= i < j < defs.len() ==> (#[trigger] defs[i]).qualified_name != (
        #[trigger] defs[j]).qualified_name
}

/// The first definitions of each name are apart, come from the list, and stand for all of it.
proof fn lemma_distinct(defs: Seq<DefinitionView>)
    ensures
        names_apart(queries::distinct(defs)),
        forall|k: int|
            0 <= k < queries::distinct(defs).len() ==> defs.contains(
                #[trigger] queries::distinct(defs)[k],
            ),
        forall|k: int|
            0 <= k < defs.len() ==> index::qualified_names(queries::distinct(defs)).contains(
                (#[trigger] defs[k]).qualified_name,
            ),
        defs.len() > 0 ==> queries::distinct(defs).len() > 0,
    decreases defs.len(),
{
    if defs.len() > 0 {
        let short = defs.drop_last();
        let last = defs.last();
        lemma_distinct(short);
        let before = queries::distinct(short);
        let after = queries::distinct(defs);
        let names = index::qualified_names(before);
        assert(defs[defs.len() - 1] == last);
        assert forall|k: int| 0 <= k < after.len() implies defs.contains(#[trigger] after[k]) by {
            if k < before.len() {
                assert(after[k] == before[k]);
                assert(short.contains(before[k]));
                let i = choose|i: int| 0 <= i < short.len() && short[i] == before[k];
                assert(defs[i] == before[k]);
            }
        }
        assert forall|i: int, j: int| 0 <= i < j < after.len() implies (
        #[trigger] after[i]).qualified_name != (#[trigger] after[j]).qualified_name by {
            if j == before.len() {
                assert(names[i] == after[i].qualified_name);
            } else {
                assert(before[i] == after[i] && before[j] == after[j]);
            }
        }
        let after_names = index::qualified_names(after);
        assert forall|k: int| 0 <= k < defs.len() implies after_names.contains(
            (#[trigger] defs[k]).qualified_name,
        ) by {
            let q = defs[k].qualified_name;
            if k < short.len() {
                assert(short[k] == defs[k]);
                let i = choose|i: int| 0 <= i < names.len() && names[i] == q;
                assert(after_names[i] == q);
            } else if names.contains(q) {
                let i = choose|i: int| 0 <= i < names.len() && names[i] == q;
                assert(after_names[i] == q);
            } else {
                assert(after_names[before.len() as int] == q);
            }
        }
        if names.contains(last.qualified_name) {
            let i = choose|i: int| 0 <= i < names.len() && names[i] == last.qualified_name;
            assert(i < before.len());
        }
    }
}

/// What is listed first of a list stays first when more follows.
proof fn lemma_distinct_prefix(a: Seq<DefinitionView>, b: Seq<DefinitionView>)
    ensures
        queries::distinct(a).len() <= queries::distinct(a + b).len(),
        queries::distinct(a + b).take(queries::distinct(a).len() as int) == queries::distinct(a),
    decreases b.len(),
{
    let kept = queries::distinct(a);
    if b.len() == 0 {
        assert(a + b =~= a);
        assert(kept.take(kept.len() as int) =~= kept);
    } else {
        let short = b.drop_last();
        lemma_distinct_prefix(a, short);
        assert((a + b).drop_last() =~= a + short);
        let before = queries::distinct(a + short);
        let after = queries::distinct(a + b);
        assert(after.take(kept.len() as int) =~= before.take(kept.len() as int));
    }
}

/// What a name stands for goes by it.
proof fn lemma_defined_as(definitions: Seq<DefinitionView>, name: Seq<char>)
    requires
        definitions.len() <= usize::MAX,
    ensures
        forall|k: int|
            0 <= k < index::defined_as(definitions, name).len() ==> ((
            #[trigger] index::defined_as(definitions, name)[k]).qualified_name == name
                || index::defined_as(definitions, name)[k].name == name),
{
    index::lemma_spots(index::qualified_names(definitions), name);
    index::lemma_spots(index::names(definitions), name);
    let at = index::meant(definitions, name);
    assert forall|k: int| 0 <= k < index::defined_as(definitions, name).len() implies ((
    #[trigger] index::defined_as(definitions, name)[k]).qualified_name == name
        || index::defined_as(definitions, name)[k].name == name) by {
        let exact = index::spots(index::qualified_names(definitions), name);
        let simple = index::spots(index::names(definitions), name);
        if exact.len() > 0 {
            assert(at[0] == exact[exact.len() - 1]);
            assert(index::qualified_names(definitions)[exact[exact.len() - 1] as int] == name);
        } else {
            assert(index::names(definitions)[simple[k] as int] == name);
        }
    }
}

/// `find` lists what the name stands for before anything else: the first results are the
/// definitions that go by the name, as many as the limit allows.
pub proof fn law_find_lists_exact_results_first(
    ix: IndexView,
    query: Seq<char>,
    wider: bool,
    limit: nat,
)
    ensures
        ({
            let all = queries::found(ix, query, wider, limit as int);
            let exact = queries::first(
                queries::distinct(index::defined_as(ix.definitions, query)),
                limit as int,
            );
            &&& exact.len() <= all.len() <= limit
            &&& all.take(exact.len() as int) == exact
        }),
{
    let exact = index::defined_as(ix.definitions, query);
    let more = index::search(ix.definitions, query);
    lemma_distinct_prefix(exact, more);
    let kept = queries::distinct(exact);
    let all = queries::found(ix, query, wider, limit as int);
    let shown = queries::first(kept, limit as int);
    assert(all.take(shown.len() as int) =~= shown);
}

/// Where the name stands for something and nothing else was asked for, every result of `find`
/// goes by the name.
pub proof fn law_exact_results_are_marked_exact(ix: IndexView, query: Seq<char>, limit: nat, k: int)
    requires
        ix.definitions.len() <= usize::MAX,
        index::defined_as(ix.definitions, query).len() > 0,
        0 <= k < queries::found(ix, query, false, limit as int).len(),
    ensures
        ({
            let d = queries::found(ix, query, false, limit as int)[k];
            hits::confidence(d, query) == "exact_qualified"@ || hits::confidence(d, query)
                == "exact_simple"@
        }),
{
    let exact = index::defined_as(ix.definitions, query);
    lemma_distinct(exact);
    lemma_defined_as(ix.definitions, query);
    let d = queries::found(ix, query, false, limit as int)[k];
    assert(d == queries::distinct(exact)[k]);
    let i = choose|i: int| 0 <= i < exact.len() && exact[i] == d;
    assert(exact[i].qualified_name == query || exact[i].name == query);
}

/// No list of definitions shows a qualified name twice, and no list is longer than its limit,
/// but for `callers` and `callees`, which show one result even where none is asked for.
pub proof fn law_lists_are_short_and_distinct(
    ix: IndexView,
    query: Seq<char>,
    wider: bool,
    callers: bool,
    limit: nat,
)
    ensures
        names_apart(queries::found(ix, query, wider, limit as int)),
        queries::found(ix, query, wider, limit as int).len() <= limit,
        names_apart(queries::endpoints(ix, query, callers, limit as int)),
        queries::endpoints(ix, query, callers, limit as int).len() <= if limit < 1 {
            1
        } else {
            limit
        },
        queries::uses_of(ix, query, limit as int).len() <= limit,
{
    let exact = index::defined_as(ix.definitions, query);
    lemma_distinct(exact);
    lemma_distinct(exact + index::search(ix.definitions, query));
    let simple = crate::text::simple(query);
    lemma_distinct(queries::other_ends(ix, query, callers));
    lemma_distinct(
        queries::other_ends(ix, query, callers) + queries::other_ends(ix, simple, callers),
    );
}

/// The positions at which the first use of each place and name stands.
proof fn lemma_distinct_uses(uses: Seq<ReferenceView>) -> (at: Seq<int>)
    ensures
        at.len() == queries::distinct_uses(uses).len(),
        forall|k: int|
            0 <= k < at.len() ==> 0 <= #[trigger] at[k] < uses.len()
                && queries::distinct_uses(uses)[k] == uses[at[k]],
        forall|j: int, k: int| 0 <= j < k < at.len() ==> #[trigger] at[j] < #[trigger] at[k],
        forall|i: int, k: int|
            0 <= k < at.len() && 0 <= i < at[k] ==> !queries::same_use(
                #[trigger] uses[i],
                #[trigger] queries::distinct_uses(uses)[k],
            ),
        forall|i: int|
            0 <= i < uses.len() ==> queries::holds_use(
                queries::distinct_uses(uses),
                #[trigger] uses[i],
            ),
    decreases uses.len(),
{
    if uses.len() == 0 {
        Seq::empty()
    } else {
        let short = uses.drop_last();
        let last = uses.last();
        let before = queries::distinct_uses(short);
        let after = queries::distinct_uses(uses);
        let at0 = lemma_distinct_uses(short);
        let at = if queries::holds_use(before, last) {
            at0
        } else {
            at0.push(uses.len() - 1)
        };
        assert(uses[uses.len() - 1] == last);
        assert forall|k: int| 0 <= k < at.len() implies 0 <= #[trigger] at[k] < uses.len()
            && after[k] == uses[at[k]] by {
            if k < at0.len() {
                assert(at[k] == at0[k]);
                assert(short[at0[k]] == uses[at0[k]]);
                assert(after[k] == before[k]);
            }
        }
        assert forall|i: int, k: int| 0 <= k < at.len() && 0 <= i < at[k] implies !queries::same_use(
            #[trigger] uses[i],
            #[trigger] after[k],
        ) by {
            if k < at0.len() {
                assert(at[k] == at0[k]);
                assert(short[i] == uses[i]);
                assert(after[k] == before[k]);
            } else {
                assert(short[i] == uses[i]);
                assert(queries::holds_use(before, short[i]));
                let j = choose|j: int|
                    0 <= j < before.len() && queries::same_use(#[trigger] before[j], short[i]);
                if queries::same_use(uses[i], last) {
                    assert(queries::same_use(before[j], last));
                }
            }
        }
        assert forall|i: int| 0 <= i < uses.len() implies queries::holds_use(
            after,
            #[trigger] uses[i],
        ) by {
            if i < short.len() {
                assert(short[i] == uses[i]);
                assert(queries::holds_use(before, short[i]));
                let j = choose|j: int|
                    0 <= j < before.len() && queries::same_use(#[trigger] before[j], short[i]);
                assert(queries::same_use(after[j], uses[i]));
            } else if queries::holds_use(before, last) {
                let j = choose|j: int|
                    0 <= j < before.len() && queries::same_use(#[trigger] before[j], last);
                assert(queries::same_use(after[j], uses[i]));
            } else {
                assert(queries::same_use(after[before.len() as int], uses[i]));
            }
        }
        at
    }
}

/// The uses that `refs` looks through.
spec fn uses_to_list(ix: IndexView, query: Seq<char>) -> Seq<ReferenceView> {
    if text::simple(query) == query {
        queries::named_references(ix, query)
    } else {
        queries::named_references(ix, query) + queries::named_references(ix, text::simple(query))
    }
}

/// Where the uses that `refs` looks through stand in the index.
proof fn lemma_uses_positions(ix: IndexView, query: Seq<char>) -> (pos: Seq<int>)
    requires
        ix.references.len() <= usize::MAX,
    ensures
        ({
            let simple = text::simple(query);
            let all = uses_to_list(ix, query);
            &&& pos.len() == all.len()
            &&& forall|i: int|
                0 <= i < pos.len() ==> 0 <= #[trigger] pos[i] < ix.references.len()
                    && ix.references[pos[i]] == all[i] && (all[i].name == query || all[i].name
                    == simple)
            &&& forall|i: int, j: int|
                0 <= i < j < pos.len() && all[i].name == all[j].name ==> #[trigger] pos[i]
                    < #[trigger] pos[j]
            &&& forall|i: int, j: int|
                0 <= i < j < pos.len() && #[trigger] all[j].name == query ==> #[trigger] all[i].name
                    == query
            &&& forall|p: int|
                0 <= p < ix.references.len() && ((#[trigger] ix.references[p]).name == query
                    || ix.references[p].name == simple) ==> exists|i: int|
                    0 <= i < pos.len() && #[trigger] pos[i] == p
        }),
{
    let simple = text::simple(query);
    let keys = index::used_names(ix.references);
    let a = index::spots(keys, query);
    let b = index::spots(keys, simple);
    index::lemma_spots(keys, query);
    index::lemma_spots(keys, simple);
    let all = uses_to_list(ix, query);
    let pos = Seq::new(
        all.len(),
        |i: int|
            if i < a.len() {
                a[i] as int
            } else {
                b[i - a.len()] as int
            },
    );
    assert forall|i: int| 0 <= i < pos.len() implies 0 <= #[trigger] pos[i] < ix.references.len()
        && ix.references[pos[i]] == all[i] && (all[i].name == query || all[i].name == simple) && (
    i < a.len() <==> all[i].name == query) by {
        if i < a.len() {
            assert(a[i] < keys.len());
            assert(keys[a[i] as int] == query);
        } else {
            let j = i - a.len();
            assert(b[j] < keys.len());
            assert(keys[b[j] as int] == simple);
        }
    }
    assert forall|i: int, j: int| 0 <= i < j < pos.len() && all[i].name == all[j].name implies (
    #[trigger] pos[i]) < (#[trigger] pos[j]) by {
        if j < a.len() {
            assert(a[i] < a[j]);
        } else {
            assert(pos[j] == b[j - a.len()]);
            assert(all[j].name != query);
            assert(all[i].name != query);
            assert(b[i - a.len()] < b[j - a.len()]);
        }
    }
    assert forall|i: int, j: int|
        0 <= i < j < pos.len() && #[trigger] all[j].name == query implies #[trigger] all[i].name
        == query by {
        assert(pos[i] == pos[i] && pos[j] == pos[j]);
    }
    assert forall|p: int|
        0 <= p < ix.references.len() && ((#[trigger] ix.references[p]).name == query
            || ix.references[p].name == simple) implies exists|i: int|
        0 <= i < pos.len() && #[trigger] pos[i] == p by {
        assert(keys[p] == ix.references[p].name);
        if ix.references[p].name == query {
            assert(a.contains(p as usize));
            let i = choose|i: int| 0 <= i < a.len() && a[i] == p as usize;
            assert(pos[i] == p);
        } else {
            assert(b.contains(p as usize));
            let i = choose|i: int| 0 <= i < b.len() && b[i] == p as usize;
            assert(pos[a.len() + i] == p);
        }
    }
    pos
}

/// Every use that `refs` lists is a reference of the index that goes by the name that was asked
/// for or by its last part, and is the first of the index at its file, line and column under its
/// name.
pub proof fn law_refs_lists_uses_of_the_name(ix: IndexView, query: Seq<char>, limit: nat, k: int)
    requires
        ix.references.len() <= usize::MAX,
        0 <= k < queries::uses_of(ix, query, limit as int).len(),
    ensures
        ({
            let x = queries::uses_of(ix, query, limit as int)[k];
            &&& x.name == query || x.name == text::simple(query)
            &&& exists|p: int|
                0 <= p < ix.references.len() && #[trigger] ix.references[p] == x && forall|i: int|
                    0 <= i < p ==> (#[trigger] ix.references[i]).location.file != x.location.file
                        || ix.references[i].location.line != x.location.line
                        || ix.references[i].location.column != x.location.column
                        || ix.references[i].name != x.name
        }),
{
    let all = uses_to_list(ix, query);
    let each = queries::distinct_uses(all);
    let x = queries::uses_of(ix, query, limit as int)[k];
    let at = lemma_distinct_uses(all);
    let pos = lemma_uses_positions(ix, query);
    assert(x == each[k]);
    assert(0 <= at[k] < all.len());
    let p = pos[at[k]];
    assert(ix.references[p] == x);
    assert forall|i: int| 0 <= i < p implies (#[trigger] ix.references[i]).location.file
        != x.location.file || ix.references[i].location.line != x.location.line
        || ix.references[i].location.column != x.location.column || ix.references[i].name
        != x.name by {
        let y = ix.references[i];
        if queries::same_use(y, x) {
            let m = choose|m: int| 0 <= m < pos.len() && #[trigger] pos[m] == i;
            assert(all[m] == y);
            if m < at[k] {
                assert(!queries::same_use(all[m], each[k]));
            } else if m > at[k] {
                assert(pos[at[k]] < pos[m]);
            }
        }
    }
}

/// No two uses that `refs` lists agree in file, line, column and name. Uses of the full name come
/// before uses of its last part, and uses of one name in the order of the index. No more are
/// listed than asked for.
pub proof fn law_refs_are_told_apart(
    ix: IndexView,
    query: Seq<char>,
    limit: nat,
    j: int,
    k: int,
)
    requires
        ix.references.len() <= usize::MAX,
        0 <= j < k < queries::uses_of(ix, query, limit as int).len(),
    ensures
        ({
            let x = queries::uses_of(ix, query, limit as int)[j];
            let y = queries::uses_of(ix, query, limit as int)[k];
            &&& k < limit
            &&& x.location.file != y.location.file || x.location.line != y.location.line
                || x.location.column != y.location.column || x.name != y.name
            &&& y.name == query ==> x.name == query
            &&& x.name == y.name ==> exists|p: int, q: int|
                0 <= p < q < ix.references.len() && #[trigger] ix.references[p] == x
                    && #[trigger] ix.references[q] == y
        }),
{
    let all = uses_to_list(ix, query);
    let each = queries::distinct_uses(all);
    let x = queries::uses_of(ix, query, limit as int)[j];
    let y = queries::uses_of(ix, query, limit as int)[k];
    let at = lemma_distinct_uses(all);
    let pos = lemma_uses_positions(ix, query);
    assert(x == each[j] && y == each[k]);
    let (a, b) = (at[j], at[k]);
    assert(a < b);
    assert(all[a] == x && all[b] == y);
    assert(!queries::same_use(all[a], each[k]));
    if y.name == query {
        assert(all[b].name == query);
        assert(all[a].name == query);
    }
    if x.name == y.name {
        assert(pos[a] < pos[b]);
        assert(ix.references[pos[a]] == x && ix.references[pos[b]] == y);
    }
}

/// A list of `refs` that is shorter than its limit leaves none out: for every reference of the
/// index that goes by the name that was asked for or by its last part, it shows one at the same
/// file, line and column, of the same name.
pub proof fn law_refs_leaves_no_use_out(ix: IndexView, query: Seq<char>, limit: nat, p: int)
    requires
        ix.references.len() <= usize::MAX,
        queries::uses_of(ix, query, limit as int).len() < limit,
        0 <= p < ix.references.len(),
        ix.references[p].name == query || ix.references[p].name == text::simple(query),
    ensures
        ({
            let r = queries::uses_of(ix, query, limit as int);
            let x = ix.references[p];
            exists|k: int|
                0 <= k < r.len() && (#[trigger] r[k]).location.file == x.location.file
                    && r[k].location.line == x.location.line && r[k].location.column
                    == x.location.column && r[k].name == x.name
        }),
{
    let all = uses_to_list(ix, query);
    let each = queries::distinct_uses(all);
    let r = queries::uses_of(ix, query, limit as int);
    let at = lemma_distinct_uses(all);
    let pos = lemma_uses_positions(ix, query);
    assert(r == each);
    let m = choose|m: int| 0 <= m < pos.len() && #[trigger] pos[m] == p;
    assert(all[m] == ix.references[p]);
    assert(queries::holds_use(each, all[m]));
    let k = choose|k: int| 0 <= k < each.len() && queries::same_use(#[trigger] each[k], all[m]);
    assert(r[k] == each[k]);
}

/// A smaller limit shows the front of what a larger one shows.
pub proof fn law_limits_only_cut_lists_short(
    ix: IndexView,
    query: Seq<char>,
    wider: bool,
    callers: bool,
    less: nat,
    more: nat,
)
    requires
        1 <= less <= more,
    ensures
        ({
            let a = queries::uses_of(ix, query, less as int);
            let b = queries::uses_of(ix, query, more as int);
            a == b.take(a.len() as int) && (a.len() == less || a == b)
        }),
        ({
            let a = queries::found(ix, query, wider, less as int);
            let b = queries::found(ix, query, wider, more as int);
            a == b.take(a.len() as int) && (a.len() == less || a == b)
        }),
        ({
            let a = queries::endpoints(ix, query, callers, less as int);
            let b = queries::endpoints(ix, query, callers, more as int);
            a == b.take(a.len() as int) && (a.len() == less || a == b)
        }),
{
    let a = queries::uses_of(ix, query, less as int);
    let b = queries::uses_of(ix, query, more as int);
    assert(a =~= b.take(a.len() as int));
    assert(a.len() == less || a =~= b);
    let a = queries::found(ix, query, wider, less as int);
    let b = queries::found(ix, query, wider, more as int);
    assert(a =~= b.take(a.len() as int));
    assert(a.len() == less || a =~= b);
    let a = queries::endpoints(ix, query, callers, less as int);
    let b = queries::endpoints(ix, query, callers, more as int);
    assert(a =~= b.take(a.len() as int));
    assert(a.len() == less || a =~= b);
}

/// A qualified name stands for the last definition that has it; a name that is nobody's qualified
/// name stands for all definitions with that simple name, in their order.
pub proof fn law_names_stand_for_definitions(definitions: Seq<DefinitionView>, name: Seq<char>)
    requires
        definitions.len() <= usize::MAX,
    ensures
        forall|j: int|
            0 <= j < definitions.len() && (#[trigger] definitions[j]).qualified_name == name && (
            forall|i: int|
                j < i < definitions.len() ==> (#[trigger] definitions[i]).qualified_name != name)
                ==> index::defined_as(definitions, name) == seq![definitions[j]],
        (forall|j: int|
            0 <= j < definitions.len() ==> (#[trigger] definitions[j]).qualified_name != name)
            ==> index::defined_as(definitions, name) == definitions.filter(
            |d: DefinitionView| d.name == name,
        ),
{
    let keys = index::qualified_names(definitions);
    let exact = index::spots(keys, name);
    index::lemma_spots(keys, name);
    assert forall|j: int|
        0 <= j < definitions.len() && (#[trigger] definitions[j]).qualified_name == name && (
        forall|i: int|
            j < i < definitions.len() ==> (#[trigger] definitions[i]).qualified_name
                != name) implies index::defined_as(definitions, name) == seq![definitions[j]] by {
        assert(keys[j] == name);
        assert(exact.contains(j as usize));
        let k = choose|k: int| 0 <= k < exact.len() && exact[k] == j as usize;
        let last = exact[exact.len() - 1];
        assert(exact.last() == last);
        if k < exact.len() - 1 {
            assert(exact[k] < last);
            assert(keys[last as int] == name);
            assert(definitions[last as int].qualified_name == name);
        }
        assert(index::defined_as(definitions, name) =~= seq![definitions[j]]);
    }
    if forall|j: int|
        0 <= j < definitions.len() ==> (#[trigger] definitions[j]).qualified_name != name {
        if exact.len() > 0 {
            assert(keys[exact[0] as int] == name);
            assert(definitions[exact[0] as int].qualified_name == name);
        }
        lemma_named(definitions, name);
    }
}

/// The definitions at the positions of a simple name are those with the name.
proof fn lemma_named(definitions: Seq<DefinitionView>, name: Seq<char>)
    requires
        definitions.len() <= usize::MAX,
    ensures
        index::picked(definitions, index::spots(index::names(definitions), name))
            == definitions.filter(|d: DefinitionView| d.name == name),
    decreases definitions.len(),
{
    let p = |d: DefinitionView| d.name == name;
    reveal(Seq::filter);
    let all = index::spots(index::names(definitions), name);
    if definitions.len() > 0 {
        let short = definitions.drop_last();
        let before = index::spots(index::names(short), name);
        lemma_named(short, name);
        index::lemma_spots(index::names(short), name);
        assert(index::names(definitions).drop_last() =~= index::names(short));
        assert(index::picked(definitions, before) =~= index::picked(short, before));
        if definitions.last().name == name {
            assert(index::picked(definitions, all) =~= index::picked(definitions, before).push(
                definitions.last(),
            ));
        }
    } else {
        assert(index::picked(definitions, all) =~= definitions.filter(p));
    }
}

/// Whether a definition is one that `find` looks for: the query stands for it; or, where wider
/// results were asked for or the query is nobody's name, its name holds the query, both in lower
/// case.
pub open spec fn is_sought(
    ix: IndexView,
    query: Seq<char>,
    wider: bool,
    d: DefinitionView,
) -> bool {
    ||| index::defined_as(ix.definitions, query).contains(d)
    ||| (wider || forall|j: int|
        0 <= j < ix.definitions.len() ==> (#[trigger] ix.definitions[j]).name != query
            && ix.definitions[j].qualified_name != query) && ix.definitions.contains(d)
        && text::contains_text(index::lowered(d.name), index::lowered(query))
}

/// `find` lists definitions that it looks for, and where its list is shorter than the limit it
/// leaves the qualified name of none of them out.
pub proof fn law_find_lists_what_is_sought(
    ix: IndexView,
    query: Seq<char>,
    wider: bool,
    limit: nat,
)
    requires
        ix.definitions.len() <= usize::MAX,
    ensures
        ({
            let r = queries::found(ix, query, wider, limit as int);
            &&& forall|k: int| 0 <= k < r.len() ==> is_sought(ix, query, wider, #[trigger] r[k])
            &&& r.len() < limit ==> forall|d: DefinitionView| #[trigger]
                is_sought(ix, query, wider, d) ==> exists|k: int|
                    0 <= k < r.len() && (#[trigger] r[k]).qualified_name == d.qualified_name
        }),
{
    let exact = index::defined_as(ix.definitions, query);
    let more = index::search(ix.definitions, query);
    let widened = exact.len() == 0 || wider;
    let all = if widened {
        exact + more
    } else {
        exact
    };
    let r = queries::found(ix, query, wider, limit as int);
    let each = queries::distinct(all);
    lemma_distinct(all);
    index_laws::law_find_definition_is_exact(ix.definitions, query);
    index_laws::law_search_ignores_case(ix.definitions, query, query);
    let unknown = forall|j: int|
        0 <= j < ix.definitions.len() ==> (#[trigger] ix.definitions[j]).name != query
            && ix.definitions[j].qualified_name != query;
    assert(exact.len() == 0 <==> unknown) by {
        if exact.len() == 0 {
            assert forall|j: int| 0 <= j < ix.definitions.len() implies (
            #[trigger] ix.definitions[j]).name != query && ix.definitions[j].qualified_name
                != query by {
                assert(!index_laws::goes_by(ix.definitions[j], query));
            }
        } else {
            lemma_defined_in(ix.definitions, query);
            assert(index_laws::goes_by(exact[0], query));
            let j = choose|j: int| 0 <= j < ix.definitions.len() && ix.definitions[j] == exact[0];
            assert(ix.definitions[j].name == query || ix.definitions[j].qualified_name == query);
        }
    }
    lemma_search_in(ix.definitions, query);
    assert forall|k: int| 0 <= k < r.len() implies is_sought(ix, query, wider, #[trigger] r[k]) by {
        let d = r[k];
        assert(d == each[k]);
        assert(all.contains(d));
        let i = choose|i: int| 0 <= i < all.len() && all[i] == d;
        if i < exact.len() {
            assert(exact[i] == d);
        } else {
            assert(more[i - exact.len()] == d);
            assert(ix.definitions.contains(more[i - exact.len()]));
        }
    }
    if r.len() < limit {
        assert(r == each);
        assert forall|d: DefinitionView| #[trigger] is_sought(ix, query, wider, d) implies exists|
            k: int,
        |
            0 <= k < r.len() && (#[trigger] r[k]).qualified_name == d.qualified_name by {
            let i = if exact.contains(d) {
                choose|i: int| 0 <= i < exact.len() && exact[i] == d
            } else {
                let j = choose|j: int| 0 <= j < ix.definitions.len() && ix.definitions[j] == d;
                assert(ix.definitions[j] == d);
                assert(more.contains(d));
                exact.len() + choose|i: int| 0 <= i < more.len() && more[i] == d
            };
            assert(all[i] == d);
            let names = index::qualified_names(each);
            assert(names.contains(all[i].qualified_name));
            let k = choose|k: int| 0 <= k < names.len() && names[k] == d.qualified_name;
            assert(r[k].qualified_name == d.qualified_name);
        }
    }
}

/// What a name stands for is among the definitions.
proof fn lemma_defined_in(definitions: Seq<DefinitionView>, name: Seq<char>)
    requires
        definitions.len() <= usize::MAX,
    ensures
        forall|k: int|
            0 <= k < index::defined_as(definitions, name).len() ==> definitions.contains(
                #[trigger] index::defined_as(definitions, name)[k],
            ),
{
    let all = index::defined_as(definitions, name);
    let at = index::meant(definitions, name);
    index::lemma_spots(index::qualified_names(definitions), name);
    index::lemma_spots(index::names(definitions), name);
    let exact = index::spots(index::qualified_names(definitions), name);
    assert forall|k: int| 0 <= k < all.len() implies definitions.contains(#[trigger] all[k]) by {
        if exact.len() > 0 {
            assert(at[0] == exact[exact.len() - 1]);
        }
        assert(at[k] < definitions.len());
        assert(definitions[at[k] as int] == all[k]);
    }
}

/// Whether one definition stands before another.
pub open spec fn stands_before(
    definitions: Seq<DefinitionView>,
    a: DefinitionView,
    b: DefinitionView,
) -> bool {
    exists|p: int, q: int|
        0 <= p < q < definitions.len() && #[trigger] definitions[p] == a
            && #[trigger] definitions[q] == b
}

/// What a search finds is among the definitions, in their order.
proof fn lemma_search_in(definitions: Seq<DefinitionView>, pattern: Seq<char>)
    requires
        definitions.len() <= usize::MAX,
    ensures
        forall|k: int|
            0 <= k < index::search(definitions, pattern).len() ==> definitions.contains(
                #[trigger] index::search(definitions, pattern)[k],
            ),
        forall|j: int, k: int|
            #![trigger index::search(definitions, pattern)[j], index::search(definitions, pattern)[k]]
            0 <= j < k < index::search(definitions, pattern).len() ==> stands_before(
                definitions,
                index::search(definitions, pattern)[j],
                index::search(definitions, pattern)[k],
            ),
{
    let all = index::search(definitions, pattern);
    let small = index::names(definitions).map_values(|n: Seq<char>| index::lowered(n));
    let at = index::holding(small, index::lowered(pattern));
    index::lemma_holding(small, index::lowered(pattern));
    assert forall|k: int| 0 <= k < all.len() implies definitions.contains(#[trigger] all[k]) by {
        assert(definitions[at[k] as int] == all[k]);
    }
    assert forall|j: int, k: int|
        #![trigger all[j], all[k]]
        0 <= j < k < all.len() implies stands_before(definitions, all[j], all[k]) by {
        assert(at[j] < at[k]);
        assert(definitions[at[j] as int] == all[j] && definitions[at[k] as int] == all[k]);
    }
}

/// `search` lists definitions whose name holds the pattern, both in lower case, in the order of
/// the index and no more than asked for; a list that is shorter than the limit holds them all.
pub proof fn law_search_lists_every_match(ix: IndexView, query: Seq<char>, limit: nat)
    requires
        ix.definitions.len() <= usize::MAX,
    ensures
        ({
            let r = queries::first(index::search(ix.definitions, query), limit as int);
            &&& r.len() <= limit
            &&& forall|k: int|
                0 <= k < r.len() ==> ix.definitions.contains(#[trigger] r[k])
                    && text::contains_text(index::lowered(r[k].name), index::lowered(query))
            &&& forall|j: int, k: int|
                #![trigger r[j], r[k]]
                0 <= j < k < r.len() ==> stands_before(ix.definitions, r[j], r[k])
            &&& r.len() < limit ==> forall|d: DefinitionView| #[trigger]
                ix.definitions.contains(d) && text::contains_text(
                    index::lowered(d.name),
                    index::lowered(query),
                ) ==> r.contains(d)
        }),
{
    let all = index::search(ix.definitions, query);
    let r = queries::first(all, limit as int);
    lemma_search_in(ix.definitions, query);
    index_laws::law_search_ignores_case(ix.definitions, query, query);
    assert forall|k: int| 0 <= k < r.len() implies #[trigger] r[k] == all[k] by {}
    assert forall|k: int| 0 <= k < r.len() implies ix.definitions.contains(#[trigger] r[k])
        && text::contains_text(index::lowered(r[k].name), index::lowered(query)) by {
        assert(r[k] == all[k]);
    }
    assert forall|j: int, k: int|
        #![trigger r[j], r[k]]
        0 <= j < k < r.len() implies stands_before(ix.definitions, r[j], r[k]) by {
        assert(r[j] == all[j] && r[k] == all[k]);
    }
    if r.len() < limit {
        assert forall|d: DefinitionView| #[trigger]
            ix.definitions.contains(d) && text::contains_text(
                index::lowered(d.name),
                index::lowered(query),
            ) implies r.contains(d) by {
            let j = choose|j: int| 0 <= j < ix.definitions.len() && ix.definitions[j] == d;
            assert(ix.definitions[j] == d);
        }
    }
}

/// Whether a definition stands at the other end of a call: of a call of the query, or of its last
/// part, it is what the caller stands for; of a call that the query makes, or its last part, it is
/// what the callee stands for.
pub open spec fn is_other_end(
    ix: IndexView,
    query: Seq<char>,
    callers: bool,
    d: DefinitionView,
) -> bool {
    exists|j: int|
        0 <= j < ix.calls.len() && {
            let c = #[trigger] ix.calls[j];
            if callers {
                (c.callee_name == query || c.callee_name == text::simple(query))
                    && index::defined_as(ix.definitions, c.caller_name).contains(d)
            } else {
                (c.caller_name == query || c.caller_name == text::simple(query))
                    && index::defined_as(ix.definitions, c.callee_name).contains(d)
            }
        }
}

/// `callers` and `callees` list definitions at the other end of calls, and where their list is
/// shorter than the limit they leave the qualified name of none of them out.
pub proof fn law_callers_and_callees_list_every_call(
    ix: IndexView,
    query: Seq<char>,
    callers: bool,
    limit: nat,
)
    requires
        ix.calls.len() <= usize::MAX,
    ensures
        ({
            let r = queries::endpoints(ix, query, callers, limit as int);
            &&& forall|k: int| 0 <= k < r.len() ==> is_other_end(ix, query, callers, #[trigger] r[k])
            &&& r.len() < limit ==> forall|d: DefinitionView| #[trigger]
                is_other_end(ix, query, callers, d) ==> exists|k: int|
                    0 <= k < r.len() && (#[trigger] r[k]).qualified_name == d.qualified_name
            &&& limit == 0 && (exists|d: DefinitionView| is_other_end(ix, query, callers, d))
                ==> r.len() == 1
        }),
{
    let simple = text::simple(query);
    let a = queries::other_ends(ix, query, callers);
    let b = queries::other_ends(ix, simple, callers);
    let all = if simple == query {
        a
    } else {
        a + b
    };
    let r = queries::endpoints(ix, query, callers, limit as int);
    let each = queries::distinct(all);
    lemma_distinct(all);
    assert forall|d: DefinitionView| all.contains(d) <==> #[trigger] is_other_end(
        ix,
        query,
        callers,
        d,
    ) by {
        lemma_other_end(ix, query, callers, d);
    }
    assert forall|k: int| 0 <= k < r.len() implies is_other_end(ix, query, callers, #[trigger] r[k]) by {
        assert(r[k] == each[k]);
        assert(all.contains(each[k]));
    }
    assert forall|d: DefinitionView| #[trigger] is_other_end(ix, query, callers, d) implies each.len()
        > 0 && exists|k: int|
        0 <= k < each.len() && (#[trigger] each[k]).qualified_name == d.qualified_name by {
        assert(all.contains(d));
        let i = choose|i: int| 0 <= i < all.len() && all[i] == d;
        let names = index::qualified_names(each);
        assert(names.contains(all[i].qualified_name));
        let k = choose|k: int| 0 <= k < names.len() && names[k] == d.qualified_name;
        assert(each[k].qualified_name == d.qualified_name);
    }
    if r.len() < limit {
        assert(r == each);
    }
}

/// What `callers` and `callees` look through are the definitions at the other end of calls.
proof fn lemma_other_end(ix: IndexView, query: Seq<char>, callers: bool, d: DefinitionView)
    requires
        ix.calls.len() <= usize::MAX,
    ensures
        ({
            let simple = text::simple(query);
            let a = queries::other_ends(ix, query, callers);
            let b = queries::other_ends(ix, simple, callers);
            (if simple == query {
                a
            } else {
                a + b
            }).contains(d) <==> is_other_end(ix, query, callers, d)
        }),
{
    let simple = text::simple(query);
    let a = queries::other_ends(ix, query, callers);
    let b = queries::other_ends(ix, simple, callers);
    index_laws::law_callers_and_callees(ix, query, d);
    index_laws::law_callers_and_callees(ix, simple, d);
    if (a + b).contains(d) {
        let i = choose|i: int| 0 <= i < (a + b).len() && (a + b)[i] == d;
        if i < a.len() {
            assert(a[i] == d);
        } else {
            assert(b[i - a.len()] == d);
        }
    }
    if a.contains(d) {
        let i = choose|i: int| 0 <= i < a.len() && a[i] == d;
        assert((a + b)[i] == d);
    }
    if b.contains(d) {
        let i = choose|i: int| 0 <= i < b.len() && b[i] == d;
        assert((a + b)[a.len() + i] == d);
    }
    if is_other_end(ix, query, callers, d) {
        let j = choose|j: int|
            0 <= j < ix.calls.len() && {
                let c = #[trigger] ix.calls[j];
                if callers {
                    (c.callee_name == query || c.callee_name == text::simple(query))
                        && index::defined_as(ix.definitions, c.caller_name).contains(d)
                } else {
                    (c.caller_name == query || c.caller_name == text::simple(query))
                        && index::defined_as(ix.definitions, c.callee_name).contains(d)
                }
            };
        assert(ix.calls[j] == ix.calls[j]);
    }
}

/// Whether an edge that names a class means the one that was asked for: under the same name; under
/// that name behind scopes; or, where a definition has the asked name as its qualified name, under
/// its last part.
pub open spec fn means_class(
    definitions: Seq<DefinitionView>,
    written: Seq<char>,
    asked: Seq<char>,
) -> bool {
    ||| written == asked
    ||| text::simple(written) == asked
    ||| written == text::simple(asked) && exists|k: int|
        0 <= k < definitions.len() && (#[trigger] definitions[k]).qualified_name == asked
}

/// The bases of a class are what the bases of the edges that mean it stand for, and the classes
/// derived from it what the derived classes of such edges stand for. Nothing else is listed.
pub proof fn law_hierarchy_follows_the_edges(ix: IndexView, class_name: Seq<char>, d: DefinitionView)
    requires
        ix.inherits.len() <= usize::MAX,
    ensures
        index::direct_bases(ix, class_name).contains(d) <==> exists|j: int|
            0 <= j < ix.inherits.len() && means_class(
                ix.definitions,
                (#[trigger] ix.inherits[j]).derived_name,
                class_name,
            ) && index::defined_as(ix.definitions, ix.inherits[j].base_name).contains(d),
        index::direct_derived(ix, class_name).contains(d) <==> exists|j: int|
            0 <= j < ix.inherits.len() && means_class(
                ix.definitions,
                (#[trigger] ix.inherits[j]).base_name,
                class_name,
            ) && index::defined_as(ix.definitions, ix.inherits[j].derived_name).contains(d),
{
    index_laws::law_hierarchy_shows_every_edge(ix, class_name, d);
    let keys = index::qualified_names(ix.definitions);
    if keys.contains(class_name) {
        let k = choose|k: int| 0 <= k < keys.len() && keys[k] == class_name;
        assert(ix.definitions[k].qualified_name == class_name);
    }
    assert forall|k: int|
        0 <= k < ix.definitions.len() && (#[trigger] ix.definitions[k]).qualified_name
            == class_name implies keys.contains(class_name) by {
        assert(keys[k] == class_name);
    }
    assert forall|w: Seq<char>| #[trigger]
        means_class(ix.definitions, w, class_name) == index::names_class(
            ix.definitions,
            w,
            class_name,
        ) by {}
}

/// Where the definitions come from that names at positions stand for.
proof fn lemma_far_ends(
    definitions: Seq<DefinitionView>,
    keys: Seq<Seq<char>>,
    at: Seq<usize>,
) -> (pos: Seq<int>)
    ensures
        ({
            let all = index::all_defined_as(definitions, keys, at);
            &&& pos.len() == all.len()
            &&& forall|x: int|
                0 <= x < pos.len() ==> 0 <= #[trigger] pos[x] < at.len() && index::defined_as(
                    definitions,
                    keys[at[pos[x]] as int],
                ).contains(all[x])
            &&& forall|x: int, y: int|
                0 <= x < y < pos.len() ==> #[trigger] pos[x] <= #[trigger] pos[y]
        }),
    decreases at.len(),
{
    if at.len() == 0 {
        Seq::empty()
    } else {
        let short = at.drop_last();
        let before = lemma_far_ends(definitions, keys, short);
        let last = index::defined_as(definitions, keys[at.last() as int]);
        let all = index::all_defined_as(definitions, keys, at);
        let pos = before + Seq::new(last.len(), |x: int| at.len() - 1);
        let n = before.len() as int;
        assert forall|x: int| 0 <= x < pos.len() implies 0 <= #[trigger] pos[x] < at.len()
            && index::defined_as(definitions, keys[at[pos[x]] as int]).contains(all[x]) by {
            if x < n {
                assert(pos[x] == before[x]);
                assert(short[before[x]] == at[before[x]]);
            } else {
                assert(all[x] == last[x - n]);
                assert(last.contains(last[x - n]));
            }
        }
        assert forall|x: int, y: int| 0 <= x < y < pos.len() implies #[trigger] pos[x]
            <= #[trigger] pos[y] by {
            if x < n {
                assert(pos[x] == before[x]);
            }
            if y < n {
                assert(pos[y] == before[y]);
            }
        }
        pos
    }
}

/// Where the first definition of each qualified name stands.
proof fn lemma_distinct_positions(defs: Seq<DefinitionView>) -> (at: Seq<int>)
    ensures
        ({
            let each = queries::distinct(defs);
            &&& at.len() == each.len()
            &&& forall|x: int|
                0 <= x < at.len() ==> 0 <= #[trigger] at[x] < defs.len() && defs[at[x]] == each[x]
            &&& forall|x: int, y: int| 0 <= x < y < at.len() ==> #[trigger] at[x] < #[trigger] at[y]
        }),
    decreases defs.len(),
{
    if defs.len() == 0 {
        Seq::empty()
    } else {
        let short = defs.drop_last();
        let before = lemma_distinct_positions(short);
        let each = queries::distinct(defs);
        if each.len() == queries::distinct(short).len() {
            assert(each == queries::distinct(short));
            assert forall|x: int| 0 <= x < before.len() implies 0 <= #[trigger] before[x]
                < defs.len() && defs[before[x]] == each[x] by {
                assert(short[before[x]] == defs[before[x]]);
            }
            before
        } else {
            let at = before.push(defs.len() - 1);
            assert forall|x: int| 0 <= x < at.len() implies 0 <= #[trigger] at[x] < defs.len()
                && defs[at[x]] == each[x] by {
                if x < before.len() {
                    assert(at[x] == before[x]);
                    assert(short[before[x]] == defs[before[x]]);
                }
            }
            at
        }
    }
}

/// Whether a definition is at the other end of the call at a position, which names the near end.
pub open spec fn ends_call(
    ix: IndexView,
    name: Seq<char>,
    callers: bool,
    j: int,
    d: DefinitionView,
) -> bool {
    let c = ix.calls[j];
    0 <= j < ix.calls.len() && if callers {
        c.callee_name == name && index::defined_as(ix.definitions, c.caller_name).contains(d)
    } else {
        c.caller_name == name && index::defined_as(ix.definitions, c.callee_name).contains(d)
    }
}

/// Where the other ends of the calls of a name come from, in order.
proof fn lemma_other_ends(ix: IndexView, name: Seq<char>, callers: bool) -> (pos: Seq<int>)
    requires
        ix.calls.len() <= usize::MAX,
    ensures
        ({
            let all = queries::other_ends(ix, name, callers);
            &&& pos.len() == all.len()
            &&& forall|x: int|
                0 <= x < pos.len() ==> ends_call(ix, name, callers, #[trigger] pos[x], all[x])
            &&& forall|x: int, y: int|
                0 <= x < y < pos.len() ==> #[trigger] pos[x] <= #[trigger] pos[y]
        }),
{
    let near = if callers {
        index::callee_names(ix.calls)
    } else {
        index::caller_names(ix.calls)
    };
    let far = if callers {
        index::caller_names(ix.calls)
    } else {
        index::callee_names(ix.calls)
    };
    let at = index::spots(near, name);
    index::lemma_spots(near, name);
    let all = queries::other_ends(ix, name, callers);
    let inner = lemma_far_ends(ix.definitions, far, at);
    let pos = Seq::new(inner.len(), |x: int| at[inner[x]] as int);
    assert forall|x: int| 0 <= x < pos.len() implies ends_call(
        ix,
        name,
        callers,
        #[trigger] pos[x],
        all[x],
    ) by {
        let k = inner[x];
        assert(near[at[k] as int] == name);
        assert(far[at[k] as int] == far[pos[x]]);
    }
    assert forall|x: int, y: int| 0 <= x < y < pos.len() implies #[trigger] pos[x]
        <= #[trigger] pos[y] by {
        assert(inner[x] <= inner[y]);
        if inner[x] < inner[y] {
            assert(at[inner[x]] < at[inner[y]]);
        }
    }
    pos
}

/// `callers` and `callees` list what is at the other end of the calls of the full name before what
/// is at the other end of the calls of its last part, and both in the order of the calls. Each
/// result comes with whether it is there for the last part, and with the position of its call.
pub proof fn law_callers_and_callees_keep_the_order_of_the_calls(
    ix: IndexView,
    query: Seq<char>,
    callers: bool,
    limit: nat,
) -> (at: Seq<(bool, int)>)
    requires
        ix.calls.len() <= usize::MAX,
    ensures
        ({
            let r = queries::endpoints(ix, query, callers, limit as int);
            &&& at.len() == r.len()
            &&& forall|x: int|
                0 <= x < at.len() ==> ends_call(
                    ix,
                    if (#[trigger] at[x]).0 {
                        text::simple(query)
                    } else {
                        query
                    },
                    callers,
                    at[x].1,
                    r[x],
                )
            &&& forall|x: int, y: int|
                0 <= x < y < at.len() ==> (#[trigger] at[x]).0 == (#[trigger] at[y]).0 && at[x].1
                    <= at[y].1 || !at[x].0 && at[y].0
        }),
{
    let simple = text::simple(query);
    let a = queries::other_ends(ix, query, callers);
    let b = queries::other_ends(ix, simple, callers);
    let all = if simple == query {
        a
    } else {
        a + b
    };
    let p = lemma_other_ends(ix, query, callers);
    let q = lemma_other_ends(ix, simple, callers);
    let sel = lemma_distinct_positions(all);
    let r = queries::endpoints(ix, query, callers, limit as int);
    let n = a.len() as int;
    let at = Seq::new(
        r.len(),
        |x: int|
            if sel[x] < n {
                (false, p[sel[x]])
            } else {
                (true, q[sel[x] - n])
            },
    );
    assert forall|x: int| 0 <= x < at.len() implies ends_call(
        ix,
        if (#[trigger] at[x]).0 {
            simple
        } else {
            query
        },
        callers,
        at[x].1,
        r[x],
    ) by {
        let k = sel[x];
        assert(r[x] == queries::distinct(all)[x]);
        assert(all[k] == r[x]);
        if k < n {
            assert(ends_call(ix, query, callers, p[k], a[k]));
        } else {
            assert(ends_call(ix, simple, callers, q[k - n], b[k - n]));
        }
    }
    assert forall|x: int, y: int| 0 <= x < y < at.len() implies (#[trigger] at[x]).0 == (
    #[trigger] at[y]).0 && at[x].1 <= at[y].1 || !at[x].0 && at[y].0 by {
        assert(sel[x] < sel[y]);
        if sel[y] < n {
            assert(p[sel[x]] <= p[sel[y]]);
        } else if sel[x] >= n {
            assert(q[sel[x] - n] <= q[sel[y] - n]);
        }
    }
    at
}

} // verus!
