//! Walks the call graph around a symbol.
use crate::index::{Index, IndexView};
use crate::index;
use crate::lookup::{NameLookup, NameSet};
use crate::text::{same, simple_name};
use crate::text;
use crate::types::{CallEdge, CallEdgeView};
use vstd::prelude::*;

verus! {

/// A call that was reached, and after how many steps.
pub struct ReachedCall<'a> {
    pub call: &'a CallEdge,
    pub depth: usize,
}

impl<'a> View for ReachedCall<'a> {
    type V = (CallEdgeView, usize);

    open spec fn view(&self) -> (CallEdgeView, usize) {
        (self.call@, self.depth)
    }
}

/// Whether a name starts the walk from a seed: the seed, its last part, and the names of the
/// definitions that the seed stands for.
pub open spec fn is_alias(ix: IndexView, seed: Seq<char>, name: Seq<char>) -> bool {
    ||| name == seed
    ||| name == text::simple(seed)
    ||| exists|k: int|
        0 <= k < index::defined_as(ix.definitions, seed).len() && {
            let d = #[trigger] index::defined_as(ix.definitions, seed)[k];
            name == d.name || name == d.qualified_name
        }
}

/// The names that start the walk from a seed.
pub open spec fn aliases(ix: IndexView, seed: Seq<char>) -> Set<Seq<char>> {
    Set::new(|name: Seq<char>| is_alias(ix, seed, name))
}

/// Whether a name or its last part is among names.
pub open spec fn matches(name: Seq<char>, names: Set<Seq<char>>) -> bool {
    names.contains(name) || names.contains(text::simple(name))
}

/// Whether two calls are the same edge at the same place.
pub open spec fn same_edge(a: CallEdgeView, b: CallEdgeView) -> bool {
    a.caller_name == b.caller_name && a.callee_name == b.callee_name && a.location.file
        == b.location.file && a.location.line == b.location.line && a.location.column
        == b.location.column
}

/// Whether an edge was reached.
pub open spec fn is_reached(edges: Seq<(CallEdgeView, usize)>, c: CallEdgeView) -> bool {
    exists|k: int| 0 <= k < edges.len() && same_edge((#[trigger] edges[k]).0, c)
}

/// Whether a walk goes from called functions to their callers.
pub open spec fn goes_up(direction: Seq<char>) -> bool {
    direction == "callers"@ || direction == "both"@
}

/// Whether a walk goes from callers to the functions they call.
pub open spec fn goes_down(direction: Seq<char>) -> bool {
    direction == "callees"@ || direction == "both"@
}

/// The edges reached so far, and the names at their far ends.
pub struct Walk {
    pub edges: Seq<(CallEdgeView, usize)>,
    pub ends: Set<Seq<char>>,
}

/// Looks at one call: an edge that was not reached before and touches the frontier is reached.
pub open spec fn walk_call(
    w: Walk,
    c: CallEdgeView,
    frontier: Set<Seq<char>>,
    direction: Seq<char>,
    level: usize,
    limit: nat,
) -> Walk {
    if w.edges.len() >= limit || is_reached(w.edges, c) {
        w
    } else if goes_up(direction) && matches(c.callee_name, frontier) {
        Walk { edges: w.edges.push((c, level)), ends: w.ends.insert(c.caller_name) }
    } else if goes_down(direction) && matches(c.caller_name, frontier) {
        Walk { edges: w.edges.push((c, level)), ends: w.ends.insert(c.callee_name) }
    } else {
        w
    }
}

/// Looks at calls in order.
pub open spec fn walk_calls(
    w: Walk,
    calls: Seq<CallEdgeView>,
    frontier: Set<Seq<char>>,
    direction: Seq<char>,
    level: usize,
    limit: nat,
) -> Walk
    decreases calls.len(),
{
    if calls.len() == 0 {
        w
    } else {
        walk_call(
            walk_calls(w, calls.drop_last(), frontier, direction, level, limit),
            calls.last(),
            frontier,
            direction,
            level,
            limit,
        )
    }
}

/// The edges reached from a level on. The names at the far ends of a level's edges that were not
/// visited before are the frontier of the next; the walk ends at the depth, at the limit, and
/// where nothing new is reached.
pub open spec fn walk_levels(
    edges: Seq<(CallEdgeView, usize)>,
    calls: Seq<CallEdgeView>,
    frontier: Set<Seq<char>>,
    visited: Set<Seq<char>>,
    direction: Seq<char>,
    level: int,
    depth: usize,
    limit: nat,
) -> Seq<(CallEdgeView, usize)>
    decreases depth - level + 1,
{
    if level > depth {
        edges
    } else {
        let w = walk_calls(
            Walk { edges, ends: Set::empty() },
            calls,
            frontier,
            direction,
            level as usize,
            limit,
        );
        let next = w.ends.difference(visited);
        if next == Set::<Seq<char>>::empty() || w.edges.len() >= limit {
            w.edges
        } else {
            walk_levels(
                w.edges,
                calls,
                next,
                visited.union(next),
                direction,
                level + 1,
                depth,
                limit,
            )
        }
    }
}

/// The edges of the call graph around a seed.
pub open spec fn expansion(
    ix: IndexView,
    seed: Seq<char>,
    direction: Seq<char>,
    depth: usize,
    limit: nat,
) -> Seq<(CallEdgeView, usize)> {
    walk_levels(
        Seq::empty(),
        ix.calls,
        aliases(ix, seed),
        aliases(ix, seed),
        direction,
        1,
        depth,
        limit,
    )
}

/// The names that start the walk from a seed.
fn aliases_for_seed(index: &Index, seed: &str) -> (r: (NameSet, NameSet))
    ensures
        r.0@ == aliases(index@, seed@),
        r.1@ == aliases(index@, seed@),
{
    let mut a = NameSet::new();
    let mut b = NameSet::new();
    let whole = seed.to_owned();
    let simple = simple_name(seed);
    a.insert(&whole);
    b.insert(&whole);
    a.insert(&simple);
    b.insert(&simple);
    let defs = index.find_definition(seed);
    let ghost all = index::defined_as(index@.definitions, seed@);
    assert(all.len() == defs@.len());
    let mut i: usize = 0;
    while i < defs.len()
        invariant
            all == text::views(defs@),
            i <= defs@.len(),
            a@ == b@,
            forall|n: Seq<char>| #[trigger]
                a@.contains(n) <==> (n == seed@ || n == text::simple(seed@) || exists|k: int|
                    0 <= k < i && (n == (#[trigger] all[k]).name || n == all[k].qualified_name)),
        decreases defs@.len() - i,
    {
        let d = defs[i];
        let ghost before = a@;
        a.insert(&d.name);
        a.insert(&d.qualified_name);
        b.insert(&d.name);
        b.insert(&d.qualified_name);
        proof {
            assert(all[i as int] == d@);
            assert forall|n: Seq<char>| #[trigger] a@.contains(n) <==> (n == seed@ || n
                == text::simple(seed@) || exists|k: int|
                0 <= k < i + 1 && (n == (#[trigger] all[k]).name || n
                    == all[k].qualified_name)) by {
                if before.contains(n) && n != seed@ && n != text::simple(seed@) {
                    let k = choose|k: int|
                        0 <= k < i && (n == (#[trigger] all[k]).name || n
                            == all[k].qualified_name);
                    assert(n == all[k].name || n == all[k].qualified_name);
                }
            }
        }
        i = i + 1;
    }
    proof {
        assert forall|n: Seq<char>| #[trigger] a@.contains(n) <==> is_alias(index@, seed@, n) by {
            if exists|k: int| 0 <= k < all.len() && (n == (#[trigger] all[k]).name || n
                == all[k].qualified_name) {
                let k = choose|k: int|
                    0 <= k < all.len() && (n == (#[trigger] all[k]).name || n
                        == all[k].qualified_name);
                assert(index::defined_as(index@.definitions, seed@)[k] == all[k]);
            }
        }
        assert(a@ =~= aliases(index@, seed@));
    }
    (a, b)
}

/// Whether a name or its last part is among names.
pub fn matches_any(name: &str, names: &NameSet) -> (r: bool)
    ensures
        r == matches(name@, names@),
{
    names.contains(name) || names.contains(simple_name(name).as_str())
}

/// The files of the edges that were reached.
pub open spec fn edge_files(edges: Seq<(CallEdgeView, usize)>) -> Seq<Seq<char>> {
    edges.map_values(|e: (CallEdgeView, usize)| e.0.location.file)
}

/// The edges that were reached, and where those of each file stand among them.
struct Reached<'a> {
    edges: Vec<ReachedCall<'a>>,
    by_file: NameLookup,
}

impl<'a> Reached<'a> {
    /// The lookup gives the positions of each file.
    spec fn wf(self) -> bool {
        &&& self.edges@.len() <= usize::MAX
        &&& forall|f: Seq<char>| #[trigger]
            self.by_file.at(f) == index::spots(edge_files(text::views(self.edges@)), f)
    }

    /// Whether an edge was reached.
    fn holds(&self, c: &CallEdge) -> (r: bool)
        requires
            self.wf(),
        ensures
            r == is_reached(text::views(self.edges@), c@),
    {
        let ghost all = text::views(self.edges@);
        let ghost files = edge_files(all);
        let ghost file = c.location.file@;
        proof {
            index::lemma_spots(files, file);
        }
        match self.by_file.get(c.location.file.as_str()) {
            Some(at) => {
                let mut i: usize = 0;
                while i < at.len()
                    invariant
                        all == text::views(self.edges@),
                        files == edge_files(all),
                        file == c.location.file@,
                        at@ == index::spots(files, file),
                        self.edges@.len() <= usize::MAX,
                        i <= at@.len(),
                        forall|k: int|
                            0 <= k < i ==> !same_edge(all[(#[trigger] at@[k]) as int].0, c@),
                    decreases at@.len() - i,
                {
                    proof {
                        index::lemma_spots(files, file);
                        assert(at@[i as int] < files.len());
                    }
                    let e = self.edges[at[i]].call;
                    assert(all[at@[i as int] as int].0 == e@);
                    if e.location.line == c.location.line && e.location.column
                        == c.location.column && same(
                        e.caller_name.as_str(),
                        c.caller_name.as_str(),
                    ) && same(e.callee_name.as_str(), c.callee_name.as_str()) && same(
                        e.location.file.as_str(),
                        c.location.file.as_str(),
                    ) {
                        return true;
                    }
                    i = i + 1;
                }
                proof {
                    assert forall|k: int| 0 <= k < all.len() implies !same_edge(
                        (#[trigger] all[k]).0,
                        c@,
                    ) by {
                        if files[k] == file {
                            assert(index::spots(files, file).contains(k as usize));
                            let j = choose|j: int| 0 <= j < at@.len() && at@[j] == k as usize;
                            assert(!same_edge(all[at@[j] as int].0, c@));
                        }
                    }
                }
                false
            },
            None => {
                proof {
                    assert forall|k: int| 0 <= k < all.len() implies !same_edge(
                        (#[trigger] all[k]).0,
                        c@,
                    ) by {
                        if files[k] == file {
                            assert(index::spots(files, file).contains(k as usize));
                        }
                    }
                }
                false
            },
        }
    }

    /// Adds an edge.
    fn reach(&mut self, call: &'a CallEdge, depth: usize)
        requires
            old(self).wf(),
            old(self).edges@.len() < usize::MAX,
        ensures
            final(self).wf(),
            text::views(final(self).edges@) == text::views(old(self).edges@).push((call@, depth)),
    {
        let ghost before = text::views(self.edges@);
        self.by_file.add(&call.location.file, self.edges.len());
        let e = ReachedCall { call, depth };
        proof {
            text::lemma_views_push(self.edges@, e);
            assert(edge_files(before.push(e@)) =~= edge_files(before).push(call.location.file@));
            assert(edge_files(before.push(e@)).drop_last() =~= edge_files(before));
        }
        self.edges.push(e);
    }
}

/// Adds a name to a list and its set, unless it is in one of two sets.
fn note_name(names: &mut Vec<String>, set: &mut NameSet, visited: &NameSet, name: &String)
    requires
        forall|n: Seq<char>| #[trigger]
            old(set)@.contains(n) <==> text::views(old(names)@).contains(n),
    ensures
        final(set)@ == if visited@.contains(name@) {
            old(set)@
        } else {
            old(set)@.insert(name@)
        },
        forall|n: Seq<char>| #[trigger]
            final(set)@.contains(n) <==> text::views(final(names)@).contains(n),
{
    if !visited.contains(name.as_str()) {
        if set.contains(name.as_str()) {
            assert(old(set)@.insert(name@) =~= old(set)@);
        } else {
            set.insert(name);
            let copy = name.clone();
            proof {
                text::lemma_views_push(names@, copy);
                text::lemma_push_contains(text::views(names@), name@);
            }
            names.push(copy);
        }
    }
}

/// Walks one level: the names at the far ends that were not visited before.
fn walk_level<'a>(
    reached: &mut Reached<'a>,
    calls: &'a [CallEdge],
    frontier: &NameSet,
    visited: &NameSet,
    direction: &str,
    level: usize,
    limit: usize,
) -> (r: (Vec<String>, NameSet))
    requires
        old(reached).wf(),
    ensures
        final(reached).wf(),
        ({
            let w = walk_calls(
                Walk { edges: text::views(old(reached).edges@), ends: Set::empty() },
                text::views(calls@),
                frontier@,
                direction@,
                level,
                limit as nat,
            );
            &&& text::views(final(reached).edges@) == w.edges
            &&& r.1@ == w.ends.difference(visited@)
            &&& forall|n: Seq<char>| #[trigger]
                r.1@.contains(n) <==> text::views(r.0@).contains(n)
        }),
{
    let up = same(direction, "callers") || same(direction, "both");
    let down = same(direction, "callees") || same(direction, "both");
    let mut names: Vec<String> = Vec::new();
    let mut ends = NameSet::new();
    let ghost start = Walk { edges: text::views(reached.edges@), ends: Set::empty() };
    let ghost all = text::views(calls@);
    let mut i: usize = 0;
    proof {
        assert(all.take(0) =~= Seq::empty());
        assert(ends@ =~= Set::<Seq<char>>::empty().difference(visited@));
    }
    while i < calls.len()
        invariant
            all == text::views(calls@),
            up == goes_up(direction@),
            down == goes_down(direction@),
            i <= calls@.len(),
            reached.wf(),
            ({
                let w = walk_calls(
                    start,
                    all.take(i as int),
                    frontier@,
                    direction@,
                    level,
                    limit as nat,
                );
                &&& text::views(reached.edges@) == w.edges
                &&& ends@ == w.ends.difference(visited@)
            }),
            forall|n: Seq<char>| #[trigger]
                ends@.contains(n) <==> text::views(names@).contains(n),
        decreases calls@.len() - i,
    {
        let c = &calls[i];
        let ghost w = walk_calls(start, all.take(i as int), frontier@, direction@, level, limit as nat);
        proof {
            assert(all.take(i + 1).drop_last() =~= all.take(i as int));
            assert(all.take(i + 1).last() == c@);
            assert(text::views(reached.edges@).len() == reached.edges@.len());
        }
        if reached.edges.len() < limit {
            if !reached.holds(c) {
                if up && matches_any(c.callee_name.as_str(), frontier) {
                    reached.reach(c, level);
                    note_name(&mut names, &mut ends, visited, &c.caller_name);
                    assert(ends@ =~= w.ends.insert(c.caller_name@).difference(visited@));
                } else if down && matches_any(c.caller_name.as_str(), frontier) {
                    reached.reach(c, level);
                    note_name(&mut names, &mut ends, visited, &c.callee_name);
                    assert(ends@ =~= w.ends.insert(c.callee_name@).difference(visited@));
                }
            }
        }
        i = i + 1;
    }
    assert(all.take(i as int) =~= all);
    (names, ends)
}

/// Adds names to a set.
fn insert_all(set: &mut NameSet, names: &Vec<String>)
    ensures
        forall|n: Seq<char>| #[trigger]
            final(set)@.contains(n) <==> old(set)@.contains(n) || text::views(names@).contains(n),
{
    let ghost all = text::views(names@);
    let mut i: usize = 0;
    while i < names.len()
        invariant
            all == text::views(names@),
            i <= names@.len(),
            forall|n: Seq<char>| #[trigger]
                set@.contains(n) <==> old(set)@.contains(n) || all.take(i as int).contains(n),
        decreases names@.len() - i,
    {
        set.insert(&names[i]);
        proof {
            assert(all.take(i + 1) =~= all.take(i as int).push(names@[i as int]@));
            text::lemma_push_contains(all.take(i as int), names@[i as int]@);
        }
        i = i + 1;
    }
    assert(all.take(i as int) =~= all);
}

/// Whether edges are calls, each reached once and within the depth.
pub open spec fn is_sound(
    edges: Seq<(CallEdgeView, usize)>,
    calls: Seq<CallEdgeView>,
    depth: usize,
    limit: nat,
) -> bool {
    &&& edges.len() <= limit
    &&& forall|k: int|
        0 <= k < edges.len() ==> calls.contains((#[trigger] edges[k]).0) && 1 <= edges[k].1
            <= depth
    &&& forall|j: int, k: int|
        0 <= j < k < edges.len() ==> !same_edge((#[trigger] edges[j]).0, (#[trigger] edges[k]).0)
}

/// Looking at calls keeps the edges sound.
proof fn lemma_walk_sound(
    w: Walk,
    calls: Seq<CallEdgeView>,
    n: int,
    frontier: Set<Seq<char>>,
    direction: Seq<char>,
    level: usize,
    depth: usize,
    limit: nat,
)
    requires
        is_sound(w.edges, calls, depth, limit),
        1 <= level <= depth,
        0 <= n <= calls.len(),
    ensures
        is_sound(
            walk_calls(w, calls.take(n), frontier, direction, level, limit).edges,
            calls,
            depth,
            limit,
        ),
    decreases n,
{
    if n > 0 {
        lemma_walk_sound(w, calls, n - 1, frontier, direction, level, depth, limit);
        assert(calls.take(n).drop_last() =~= calls.take(n - 1));
        let before = walk_calls(w, calls.take(n - 1), frontier, direction, level, limit);
        let after = walk_calls(w, calls.take(n), frontier, direction, level, limit);
        let c = calls[n - 1];
        assert(calls.take(n).last() == c);
        assert(calls.contains(c));
        assert(after == walk_call(before, c, frontier, direction, level, limit));
        assert forall|j: int, k: int| 0 <= j < k < after.edges.len() implies !same_edge(
            (#[trigger] after.edges[j]).0,
            (#[trigger] after.edges[k]).0,
        ) by {
            if k == before.edges.len() {
                assert(after.edges[j] == before.edges[j]);
                assert(after.edges[k].0 == c);
            }
        }
    }
}

/// Walking levels keeps the edges sound.
proof fn lemma_levels_sound(
    edges: Seq<(CallEdgeView, usize)>,
    calls: Seq<CallEdgeView>,
    frontier: Set<Seq<char>>,
    visited: Set<Seq<char>>,
    direction: Seq<char>,
    level: int,
    depth: usize,
    limit: nat,
)
    requires
        is_sound(edges, calls, depth, limit),
        1 <= level,
    ensures
        is_sound(
            walk_levels(edges, calls, frontier, visited, direction, level, depth, limit),
            calls,
            depth,
            limit,
        ),
    decreases depth - level + 1,
{
    if level <= depth {
        let start = Walk { edges, ends: Set::empty() };
        let w = walk_calls(start, calls, frontier, direction, level as usize, limit);
        assert(calls.take(calls.len() as int) =~= calls);
        lemma_walk_sound(
            start,
            calls,
            calls.len() as int,
            frontier,
            direction,
            level as usize,
            depth,
            limit,
        );
        let next = w.ends.difference(visited);
        if !(next == Set::<Seq<char>>::empty() || w.edges.len() >= limit) {
            lemma_levels_sound(
                w.edges,
                calls,
                next,
                visited.union(next),
                direction,
                level + 1,
                depth,
                limit,
            );
        }
    }
}

/// The walk shows only calls of the index, each once, no deeper than asked and no more than
/// asked.
pub proof fn law_expansion_is_sound(
    ix: IndexView,
    seed: Seq<char>,
    direction: Seq<char>,
    depth: usize,
    limit: nat,
)
    ensures
        is_sound(expansion(ix, seed, direction, depth, limit), ix.calls, depth, limit),
{
    lemma_levels_sound(
        Seq::empty(),
        ix.calls,
        aliases(ix, seed),
        aliases(ix, seed),
        direction,
        1,
        depth,
        limit,
    );
}

/// Whether a walk that still has room holds every edge that touches the frontier.
pub open spec fn holds_touching(
    edges: Seq<(CallEdgeView, usize)>,
    calls: Seq<CallEdgeView>,
    names: Set<Seq<char>>,
    direction: Seq<char>,
) -> bool {
    forall|k: int|
        0 <= k < calls.len() && (goes_up(direction) && matches(
            (#[trigger] calls[k]).callee_name,
            names,
        ) || goes_down(direction) && matches(calls[k].caller_name, names)) ==> is_reached(
            edges,
            calls[k],
        )
}

/// Edges stay reached.
proof fn lemma_walk_grows(
    w: Walk,
    calls: Seq<CallEdgeView>,
    frontier: Set<Seq<char>>,
    direction: Seq<char>,
    level: usize,
    limit: nat,
)
    ensures
        w.edges.len() <= walk_calls(w, calls, frontier, direction, level, limit).edges.len(),
        forall|c: CallEdgeView| #[trigger]
            is_reached(w.edges, c) ==> is_reached(
                walk_calls(w, calls, frontier, direction, level, limit).edges,
                c,
            ),
    decreases calls.len(),
{
    if calls.len() > 0 {
        lemma_walk_grows(w, calls.drop_last(), frontier, direction, level, limit);
        let before = walk_calls(w, calls.drop_last(), frontier, direction, level, limit);
        let after = walk_calls(w, calls, frontier, direction, level, limit);
        assert forall|c: CallEdgeView| #[trigger] is_reached(w.edges, c) implies is_reached(
            after.edges,
            c,
        ) by {
            assert(is_reached(before.edges, c));
            let k = choose|k: int|
                0 <= k < before.edges.len() && same_edge((#[trigger] before.edges[k]).0, c);
            assert(after.edges[k] == before.edges[k]);
        }
    }
}

/// A level with room to spare reaches every edge that touches its frontier.
proof fn lemma_level_complete(
    w: Walk,
    calls: Seq<CallEdgeView>,
    frontier: Set<Seq<char>>,
    direction: Seq<char>,
    level: usize,
    limit: nat,
)
    requires
        walk_calls(w, calls, frontier, direction, level, limit).edges.len() < limit,
    ensures
        holds_touching(
            walk_calls(w, calls, frontier, direction, level, limit).edges,
            calls,
            frontier,
            direction,
        ),
    decreases calls.len(),
{
    if calls.len() > 0 {
        let before = walk_calls(w, calls.drop_last(), frontier, direction, level, limit);
        let after = walk_calls(w, calls, frontier, direction, level, limit);
        assert(before.edges.len() <= after.edges.len());
        lemma_level_complete(w, calls.drop_last(), frontier, direction, level, limit);
        assert forall|k: int|
            0 <= k < calls.len() && (goes_up(direction) && matches(
                (#[trigger] calls[k]).callee_name,
                frontier,
            ) || goes_down(direction) && matches(calls[k].caller_name, frontier)) implies is_reached(
            after.edges,
            calls[k],
        ) by {
            if k < calls.len() - 1 {
                assert(calls.drop_last()[k] == calls[k]);
                assert(is_reached(before.edges, calls[k]));
                let j = choose|j: int|
                    0 <= j < before.edges.len() && same_edge(
                        (#[trigger] before.edges[j]).0,
                        calls[k],
                    );
                assert(after.edges[j] == before.edges[j]);
            } else if !is_reached(before.edges, calls[k]) {
                assert(after.edges[before.edges.len() as int].0 == calls[k]);
            }
        }
    }
}

/// The edges that a walk starts with stay reached.
proof fn lemma_levels_grow(
    edges: Seq<(CallEdgeView, usize)>,
    calls: Seq<CallEdgeView>,
    frontier: Set<Seq<char>>,
    visited: Set<Seq<char>>,
    direction: Seq<char>,
    level: int,
    depth: usize,
    limit: nat,
)
    ensures
        ({
            let all = walk_levels(edges, calls, frontier, visited, direction, level, depth, limit);
            &&& edges.len() <= all.len()
            &&& forall|c: CallEdgeView| #[trigger] is_reached(edges, c) ==> is_reached(all, c)
        }),
    decreases depth - level + 1,
{
    if level <= depth {
        let start = Walk { edges, ends: Set::empty() };
        let w = walk_calls(start, calls, frontier, direction, level as usize, limit);
        lemma_walk_grows(start, calls, frontier, direction, level as usize, limit);
        let next = w.ends.difference(visited);
        if !(next == Set::<Seq<char>>::empty() || w.edges.len() >= limit) {
            lemma_levels_grow(
                w.edges,
                calls,
                next,
                visited.union(next),
                direction,
                level + 1,
                depth,
                limit,
            );
        }
    }
}

/// A walk that ends below its limit shows every call that touches its seed.
pub proof fn law_expansion_shows_all_calls_of_the_seed(
    ix: IndexView,
    seed: Seq<char>,
    direction: Seq<char>,
    depth: usize,
    limit: nat,
)
    requires
        depth >= 1,
        expansion(ix, seed, direction, depth, limit).len() < limit,
    ensures
        holds_touching(
            expansion(ix, seed, direction, depth, limit),
            ix.calls,
            aliases(ix, seed),
            direction,
        ),
{
    let names = aliases(ix, seed);
    let start = Walk { edges: Seq::empty(), ends: Set::empty() };
    let w = walk_calls(start, ix.calls, names, direction, 1, limit);
    let next = w.ends.difference(names);
    let all = expansion(ix, seed, direction, depth, limit);
    if !(next == Set::<Seq<char>>::empty() || w.edges.len() >= limit) {
        lemma_levels_grow(
            w.edges,
            ix.calls,
            next,
            names.union(next),
            direction,
            2,
            depth,
            limit,
        );
    }
    lemma_level_complete(start, ix.calls, names, direction, 1, limit);
    assert forall|k: int|
        0 <= k < ix.calls.len() && (goes_up(direction) && matches(
            (#[trigger] ix.calls[k]).callee_name,
            names,
        ) || goes_down(direction) && matches(ix.calls[k].caller_name, names)) implies is_reached(
        all,
        ix.calls[k],
    ) by {
        assert(is_reached(w.edges, ix.calls[k]));
    }
}

/// Looking at calls goes no further than the limit.
proof fn lemma_walk_bounded(
    w: Walk,
    calls: Seq<CallEdgeView>,
    frontier: Set<Seq<char>>,
    direction: Seq<char>,
    level: usize,
    limit: nat,
)
    requires
        w.edges.len() <= limit,
    ensures
        walk_calls(w, calls, frontier, direction, level, limit).edges.len() <= limit,
    decreases calls.len(),
{
    if calls.len() > 0 {
        lemma_walk_bounded(w, calls.drop_last(), frontier, direction, level, limit);
    }
}

/// The edges of the call graph around a seed.
pub fn expand<'a>(index: &'a Index, seed: &str, direction: &str, depth: usize, limit: usize) -> (r:
    Vec<ReachedCall<'a>>)
    ensures
        text::views(r@) == expansion(index@, seed@, direction@, depth, limit as nat),
{
    let (start, all_aliases) = aliases_for_seed(index, seed);
    let mut frontier = start;
    let mut visited = all_aliases;
    let calls = index.calls();
    let mut reached = Reached { edges: Vec::new(), by_file: NameLookup::new() };
    proof {
        assert(text::views(reached.edges@) =~= Seq::empty());
        assert(edge_files(text::views(reached.edges@)) =~= Seq::empty());
    }
    let ghost wanted = expansion(index@, seed@, direction@, depth, limit as nat);
    let mut level: usize = 1;
    while level <= depth
        invariant
            text::views(calls@) == index@.calls,
            1 <= level,
            reached.wf(),
            reached.edges@.len() <= limit,
            wanted == expansion(index@, seed@, direction@, depth, limit as nat),
            wanted == walk_levels(
                text::views(reached.edges@),
                index@.calls,
                frontier@,
                visited@,
                direction@,
                level as int,
                depth,
                limit as nat,
            ),
        decreases depth - level,
    {
        let ghost before = text::views(reached.edges@);
        let (names, ends) = walk_level(
            &mut reached,
            calls,
            &frontier,
            &visited,
            direction,
            level,
            limit,
        );
        proof {
            lemma_walk_bounded(
                Walk { edges: before, ends: Set::empty() },
                index@.calls,
                frontier@,
                direction@,
                level,
                limit as nat,
            );
            assert(text::views(reached.edges@).len() == reached.edges@.len());
            let w = walk_calls(
                Walk { edges: before, ends: Set::empty() },
                index@.calls,
                frontier@,
                direction@,
                level,
                limit as nat,
            );
            assert(text::views(reached.edges@) == w.edges);
            assert(ends@ == w.ends.difference(visited@));
            assert(level as int as usize == level);
            if names@.len() > 0 {
                assert(text::views(names@)[0] == names@[0]@);
                assert(text::views(names@).contains(names@[0]@));
                assert(ends@.contains(names@[0]@));
            } else {
                assert(ends@ =~= Set::<Seq<char>>::empty());
            }
        }
        if names.len() == 0 || reached.edges.len() >= limit || level == depth {
            proof {
                if level == depth {
                    reveal_with_fuel(walk_levels, 2);
                }
            }
            return reached.edges;
        }
        let ghost seen = visited@;
        insert_all(&mut visited, &names);
        frontier = ends;
        level = level + 1;
        assert(visited@ =~= seen.union(frontier@));
    }
    reached.edges
}

} // verus!
