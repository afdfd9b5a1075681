//! What the commands select from an index.
use crate::index::{Index, IndexView};
use crate::index;
use crate::lookup::{NameLookup, NameSet};
use crate::text::{same, simple_name};
use crate::text;
use crate::types::{Definition, DefinitionView, Reference, ReferenceView};
use vstd::prelude::*;

verus! {

/// The first values of a sequence.
pub open spec fn first<T>(s: Seq<T>, n: int) -> Seq<T> {
    if n < s.len() {
        s.take(n)
    } else {
        s
    }
}

/// Drops all but the first values.
fn truncate<'a, T>(v: Vec<&'a T>, n: usize) -> (r: Vec<&'a T>)
    ensures
        r@ == first(v@, n as int),
{
    let mut r: Vec<&'a T> = Vec::new();
    let mut i: usize = 0;
    while i < v.len() && i < n
        invariant
            i <= v@.len(),
            i <= n,
            r@ == v@.take(i as int),
        decreases v@.len() - i,
    {
        r.push(v[i]);
        i = i + 1;
        assert(v@.take(i as int) =~= v@.take(i - 1).push(v@[i - 1]));
    }
    assert(i == v@.len() ==> v@.take(i as int) =~= v@);
    r
}

/// The first definition of each qualified name.
pub open spec fn distinct(defs: Seq<DefinitionView>) -> Seq<DefinitionView>
    decreases defs.len(),
{
    if defs.len() == 0 {
        Seq::empty()
    } else {
        let before = distinct(defs.drop_last());
        if index::qualified_names(before).contains(defs.last().qualified_name) {
            before
        } else {
            before.push(defs.last())
        }
    }
}

/// The first definition of each qualified name.
fn first_of_each<'a>(defs: &Vec<&'a Definition>) -> (r: Vec<&'a Definition>)
    ensures
        text::views(r@) == distinct(text::views(defs@)),
{
    let ghost all = text::views(defs@);
    let mut r: Vec<&'a Definition> = Vec::new();
    let mut seen = NameSet::new();
    let mut i: usize = 0;
    proof {
        assert(text::views(r@) =~= distinct(all.take(0)));
    }
    while i < defs.len()
        invariant
            all == text::views(defs@),
            i <= defs@.len(),
            text::views(r@) == distinct(all.take(i as int)),
            forall|q: Seq<char>| #[trigger]
                seen@.contains(q) <==> index::qualified_names(text::views(r@)).contains(q),
        decreases defs@.len() - i,
    {
        let d = defs[i];
        let ghost before = text::views(r@);
        proof {
            assert(all.take(i + 1).drop_last() =~= all.take(i as int));
            assert(all.take(i + 1).last() == d@);
        }
        if !seen.contains(d.qualified_name.as_str()) {
            seen.insert(&d.qualified_name);
            proof {
                text::lemma_views_push(r@, d);
                assert(index::qualified_names(before.push(d@)) =~= index::qualified_names(
                    before,
                ).push(d.qualified_name@));
                text::lemma_push_contains(index::qualified_names(before), d.qualified_name@);
            }
            r.push(d);
        }
        i = i + 1;
    }
    assert(all.take(i as int) =~= all);
    r
}

/// The definitions that `find` lists: those that the name stands for, and where there are none,
/// or where asked for, those whose name holds it.
pub open spec fn found(ix: IndexView, query: Seq<char>, wider: bool, limit: int) -> Seq<
    DefinitionView,
> {
    let exact = index::defined_as(ix.definitions, query);
    let all = if exact.len() == 0 || wider {
        exact + index::search(ix.definitions, query)
    } else {
        exact
    };
    first(distinct(all), limit)
}

/// Two lists, one after the other.
fn concat<'a, T: View>(a: Vec<&'a T>, b: Vec<&'a T>) -> (r: Vec<&'a T>)
    ensures
        text::views(r@) == text::views(a@) + text::views(b@),
{
    let mut r = a;
    let mut i: usize = 0;
    assert(b@.take(0) =~= Seq::empty());
    assert(a@ + b@.take(0) =~= a@);
    while i < b.len()
        invariant
            i <= b@.len(),
            r@ == a@ + b@.take(i as int),
        decreases b@.len() - i,
    {
        r.push(b[i]);
        i = i + 1;
        assert(a@ + b@.take(i as int) =~= (a@ + b@.take(i - 1)).push(b@[i - 1]));
    }
    assert(b@.take(i as int) =~= b@);
    assert(text::views(r@) =~= text::views(a@) + text::views(b@));
    r
}

/// The definitions that `find` lists.
pub fn find_results<'a>(index: &'a Index, query: &str, wider: bool, limit: usize) -> (r: Vec<
    &'a Definition,
>)
    ensures
        text::views(r@) == found(index@, query@, wider, limit as int),
{
    let exact = index.find_definition(query);
    assert(text::views(exact@).len() == exact@.len());
    let all = if exact.len() == 0 || wider {
        concat(exact, index.search_symbols(query))
    } else {
        exact
    };
    let each = first_of_each(&all);
    let r = truncate(each, limit);
    assert(text::views(r@) =~= first(text::views(each@), limit as int));
    r
}

/// The definitions that `search` lists: those whose name holds the pattern.
pub fn search_results<'a>(index: &'a Index, query: &str, limit: usize) -> (r: Vec<&'a Definition>)
    ensures
        text::views(r@) == first(index::search(index@.definitions, query@), limit as int),
{
    let all = index.search_symbols(query);
    let r = truncate(all, limit);
    assert(text::views(r@) =~= first(text::views(all@), limit as int));
    r
}

/// The definitions that `context` lists: those that the name stands for.
pub fn context_results<'a>(index: &'a Index, query: &str, limit: usize) -> (r: Vec<&'a Definition>)
    ensures
        text::views(r@) == first(index::defined_as(index@.definitions, query@), limit as int),
{
    let all = index.find_definition(query);
    let r = truncate(all, limit);
    assert(text::views(r@) =~= first(text::views(all@), limit as int));
    r
}

/// The references with a name.
pub open spec fn named_references(ix: IndexView, name: Seq<char>) -> Seq<ReferenceView> {
    index::picked(ix.references, index::spots(index::used_names(ix.references), name))
}

/// Whether two references stand at the same place and use the same name.
pub open spec fn same_use(a: ReferenceView, b: ReferenceView) -> bool {
    a.location.file == b.location.file && a.location.line == b.location.line && a.location.column
        == b.location.column && a.name == b.name
}

/// Whether one of the references stands at the same place and uses the same name.
pub open spec fn holds_use(uses: Seq<ReferenceView>, r: ReferenceView) -> bool {
    exists|k: int| 0 <= k < uses.len() && same_use(#[trigger] uses[k], r)
}

/// The first reference at each place with each name.
pub open spec fn distinct_uses(uses: Seq<ReferenceView>) -> Seq<ReferenceView>
    decreases uses.len(),
{
    if uses.len() == 0 {
        Seq::empty()
    } else {
        let before = distinct_uses(uses.drop_last());
        if holds_use(before, uses.last()) {
            before
        } else {
            before.push(uses.last())
        }
    }
}

/// The references that `refs` lists: those with the name, then those with its last part.
pub open spec fn uses_of(ix: IndexView, query: Seq<char>, limit: int) -> Seq<ReferenceView> {
    let simple = text::simple(query);
    let all = if simple == query {
        named_references(ix, query)
    } else {
        named_references(ix, query) + named_references(ix, simple)
    };
    first(distinct_uses(all), limit)
}

/// Whether a reference is among those of its file.
fn is_listed(listed: &Vec<&Reference>, by_file: &NameLookup, x: &Reference) -> (r: bool)
    requires
        by_file.at(x.location.file@) == index::spots(
            text::views(listed@).map_values(|u: ReferenceView| u.location.file),
            x.location.file@,
        ),
        listed@.len() <= usize::MAX,
    ensures
        r == holds_use(text::views(listed@), x@),
{
    let ghost all = text::views(listed@);
    let ghost files = all.map_values(|u: ReferenceView| u.location.file);
    let ghost file = x.location.file@;
    proof {
        index::lemma_spots(files, file);
    }
    match by_file.get(x.location.file.as_str()) {
        Some(at) => {
            let mut i: usize = 0;
            while i < at.len()
                invariant
                    all == text::views(listed@),
                    files == all.map_values(|u: ReferenceView| u.location.file),
                    file == x.location.file@,
                    at@ == index::spots(files, file),
                    listed@.len() <= usize::MAX,
                    i <= at@.len(),
                    forall|k: int| 0 <= k < i ==> !same_use(all[(#[trigger] at@[k]) as int], x@),
                decreases at@.len() - i,
            {
                proof {
                    index::lemma_spots(files, file);
                    assert(at@[i as int] < files.len());
                }
                let u = listed[at[i]];
                assert(all[at@[i as int] as int] == u@);
                if same(u.location.file.as_str(), x.location.file.as_str()) && u.location.line
                    == x.location.line && u.location.column == x.location.column && same(
                    u.name.as_str(),
                    x.name.as_str(),
                ) {
                    return true;
                }
                i = i + 1;
            }
            proof {
                assert forall|k: int| 0 <= k < all.len() implies !same_use(
                    #[trigger] all[k],
                    x@,
                ) by {
                    if files[k] == file {
                        assert(index::spots(files, file).contains(k as usize));
                        let j = choose|j: int| 0 <= j < at@.len() && at@[j] == k as usize;
                        assert(!same_use(all[at@[j] as int], x@));
                    }
                }
            }
            false
        },
        None => {
            proof {
                assert forall|k: int| 0 <= k < all.len() implies !same_use(
                    #[trigger] all[k],
                    x@,
                ) by {
                    if files[k] == file {
                        assert(index::spots(files, file).contains(k as usize));
                    }
                }
            }
            false
        },
    }
}

/// The first reference at each place with each name.
fn first_uses<'a>(uses: &Vec<&'a Reference>) -> (r: Vec<&'a Reference>)
    ensures
        text::views(r@) == distinct_uses(text::views(uses@)),
{
    let ghost all = text::views(uses@);
    let mut r: Vec<&'a Reference> = Vec::new();
    let mut by_file = NameLookup::new();
    let mut i: usize = 0;
    proof {
        assert(text::views(r@) =~= distinct_uses(all.take(0)));
    }
    while i < uses.len()
        invariant
            all == text::views(uses@),
            i <= uses@.len(),
            r@.len() <= i,
            text::views(r@) == distinct_uses(all.take(i as int)),
            forall|f: Seq<char>| #[trigger]
                by_file.at(f) == index::spots(
                    text::views(r@).map_values(|u: ReferenceView| u.location.file),
                    f,
                ),
        decreases uses@.len() - i,
    {
        let x = uses[i];
        let ghost before = text::views(r@);
        let ghost files = before.map_values(|u: ReferenceView| u.location.file);
        proof {
            assert(all.take(i + 1).drop_last() =~= all.take(i as int));
            assert(all.take(i + 1).last() == x@);
        }
        if !is_listed(&r, &by_file, x) {
            by_file.add(&x.location.file, r.len());
            proof {
                text::lemma_views_push(r@, x);
                let after = before.push(x@).map_values(|u: ReferenceView| u.location.file);
                assert(after =~= files.push(x.location.file@));
                assert(after.drop_last() =~= files);
            }
            r.push(x);
        }
        i = i + 1;
    }
    assert(all.take(i as int) =~= all);
    r
}

/// The references that `refs` lists.
pub fn refs_for_query<'a>(index: &'a Index, query: &str, limit: usize) -> (r: Vec<&'a Reference>)
    ensures
        text::views(r@) == uses_of(index@, query@, limit as int),
{
    let simple = simple_name(query);
    let all = if same(simple.as_str(), query) {
        index.find_references(query)
    } else {
        concat(index.find_references(query), index.find_references(simple.as_str()))
    };
    let each = first_uses(&all);
    let r = truncate(each, limit);
    assert(text::views(r@) =~= first(text::views(each@), limit as int));
    r
}

/// The definitions at the other end of the calls of a name, or by it.
pub open spec fn other_ends(ix: IndexView, name: Seq<char>, callers: bool) -> Seq<DefinitionView> {
    if callers {
        index::all_defined_as(
            ix.definitions,
            index::caller_names(ix.calls),
            index::spots(index::callee_names(ix.calls), name),
        )
    } else {
        index::all_defined_as(
            ix.definitions,
            index::callee_names(ix.calls),
            index::spots(index::caller_names(ix.calls), name),
        )
    }
}

/// The definitions that `callers` and `callees` list: those for the name, then those for its last
/// part, each once. At least one is listed where there is one.
pub open spec fn endpoints(ix: IndexView, query: Seq<char>, callers: bool, limit: int) -> Seq<
    DefinitionView,
> {
    let simple = text::simple(query);
    let all = if simple == query {
        other_ends(ix, query, callers)
    } else {
        other_ends(ix, query, callers) + other_ends(ix, simple, callers)
    };
    first(
        distinct(all),
        if limit < 1 {
            1
        } else {
            limit
        },
    )
}

/// The definitions at the other end of calls.
fn find_other_ends<'a>(index: &'a Index, name: &str, callers: bool) -> (r: Vec<&'a Definition>)
    ensures
        text::views(r@) == other_ends(index@, name@, callers),
{
    if callers {
        index.find_callers(name)
    } else {
        index.find_callees(name)
    }
}

/// The definitions that `callers` and `callees` list.
pub fn call_endpoint_defs<'a>(index: &'a Index, query: &str, callers: bool, limit: usize) -> (r:
    Vec<&'a Definition>)
    ensures
        text::views(r@) == endpoints(index@, query@, callers, limit as int),
{
    let simple = simple_name(query);
    let all = if same(simple.as_str(), query) {
        find_other_ends(index, query, callers)
    } else {
        concat(
            find_other_ends(index, query, callers),
            find_other_ends(index, simple.as_str(), callers),
        )
    };
    let each = first_of_each(&all);
    let most: usize = if limit < 1 {
        1
    } else {
        limit
    };
    let r = truncate(each, most);
    assert(text::views(r@) =~= first(text::views(each@), most as int));
    r
}

} // verus!
