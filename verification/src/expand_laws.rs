//! What walks over the call graph show.
use crate::expand::Walk;
use crate::expand;
use crate::index::IndexView;
use crate::index;
use crate::text;
use crate::types::{CallEdgeView, DefinitionView};
use vstd::prelude::*;

verus! {

/// Whether a name is a name or its last part.
pub open spec fn goes_by(full: Seq<char>, name: Seq<char>) -> bool {
    full == name || text::simple(full) == name
}

/// Whether a call touches a name: as what it calls, where a walk goes up to callers; as what makes
/// it, where a walk goes down to callees.
pub open spec fn touches(direction: Seq<char>, c: CallEdgeView, name: Seq<char>) -> bool {
    ||| (direction == "callers"@ || direction == "both"@) && goes_by(c.callee_name, name)
    ||| (direction == "callees"@ || direction == "both"@) && goes_by(c.caller_name, name)
}

/// Whether a name stands at the far end of a call: its caller, where a walk goes up; its callee,
/// where a walk goes down.
pub open spec fn is_far_end(direction: Seq<char>, c: CallEdgeView, name: Seq<char>) -> bool {
    ||| (direction == "callers"@ || direction == "both"@) && name == c.caller_name
    ||| (direction == "callees"@ || direction == "both"@) && name == c.callee_name
}

/// Whether a walk starts from a name: the seed, its last part, or a name of a definition that the
/// seed stands for.
pub open spec fn is_start(ix: IndexView, seed: Seq<char>, name: Seq<char>) -> bool {
    ||| name == seed
    ||| name == text::simple(seed)
    ||| exists|d: DefinitionView| #[trigger]
        index::defined_as(ix.definitions, seed).contains(d) && (name == d.name || name
            == d.qualified_name)
}

/// Whether a call is shown, at most so deep: with its caller, its callee, its file, its line and
/// its column.
pub open spec fn is_shown(
    edges: Seq<(CallEdgeView, usize)>,
    c: CallEdgeView,
    depth: int,
) -> bool {
    exists|k: int|
        0 <= k < edges.len() && (#[trigger] edges[k]).1 <= depth && edges[k].0.caller_name
            == c.caller_name && edges[k].0.callee_name == c.callee_name
            && edges[k].0.location.file == c.location.file && edges[k].0.location.line
            == c.location.line && edges[k].0.location.column == c.location.column
}

/// Whether every call that touches a name is shown, at most so deep.
pub open spec fn shows_all(
    edges: Seq<(CallEdgeView, usize)>,
    calls: Seq<CallEdgeView>,
    direction: Seq<char>,
    name: Seq<char>,
    depth: int,
) -> bool {
    forall|i: int|
        0 <= i < calls.len() && touches(direction, #[trigger] calls[i], name) ==> is_shown(
            edges,
            calls[i],
            depth,
        )
}

/// What goes by a name goes by what the name goes by.
proof fn lemma_goes_by(a: Seq<char>, b: Seq<char>, c: Seq<char>)
    requires
        goes_by(a, b),
        goes_by(b, c),
    ensures
        goes_by(a, c),
{
    text::lemma_simple_twice(a);
}

/// Names that match a frontier go by a name of it.
proof fn lemma_matches(name: Seq<char>, names: Set<Seq<char>>)
    ensures
        expand::matches(name, names) <==> exists|n: Seq<char>| #[trigger]
            names.contains(n) && goes_by(name, n),
{
    if expand::matches(name, names) {
        if names.contains(name) {
            assert(names.contains(name) && goes_by(name, name));
        } else {
            assert(names.contains(text::simple(name)) && goes_by(name, text::simple(name)));
        }
    }
}

/// What looking at calls adds: calls that touch the frontier, at the level, and the names at their
/// far ends.
proof fn lemma_added(
    w: Walk,
    calls: Seq<CallEdgeView>,
    frontier: Set<Seq<char>>,
    direction: Seq<char>,
    level: usize,
    limit: nat,
)
    ensures
        ({
            let r = expand::walk_calls(w, calls, frontier, direction, level, limit);
            &&& w.edges.len() <= r.edges.len()
            &&& r.edges.take(w.edges.len() as int) == w.edges
            &&& forall|k: int|
                w.edges.len() <= k < r.edges.len() ==> {
                    let e = #[trigger] r.edges[k];
                    e.1 == level && exists|n: Seq<char>, f: Seq<char>|
                        #![trigger frontier.contains(n), r.ends.contains(f)]
                        frontier.contains(n) && r.ends.contains(f) && is_far_end(
                            direction,
                            e.0,
                            f,
                        ) && touches(direction, e.0, n) && (f == e.0.caller_name && goes_by(
                            e.0.callee_name,
                            n,
                        ) || f == e.0.callee_name && goes_by(e.0.caller_name, n))
                }
            &&& forall|f: Seq<char>| #[trigger]
                r.ends.contains(f) ==> w.ends.contains(f) || exists|k: int|
                    w.edges.len() <= k < r.edges.len() && is_far_end(
                        direction,
                        (#[trigger] r.edges[k]).0,
                        f,
                    )
        }),
    decreases calls.len(),
{
    let r = expand::walk_calls(w, calls, frontier, direction, level, limit);
    if calls.len() == 0 {
        assert(r.edges.take(w.edges.len() as int) =~= w.edges);
    } else {
        let short = calls.drop_last();
        lemma_added(w, short, frontier, direction, level, limit);
        let b = expand::walk_calls(w, short, frontier, direction, level, limit);
        let c = calls.last();
        assert(r == expand::walk_call(b, c, frontier, direction, level, limit));
        assert(r.edges.take(w.edges.len() as int) =~= b.edges.take(w.edges.len() as int));
        lemma_matches(c.callee_name, frontier);
        lemma_matches(c.caller_name, frontier);
        assert forall|k: int| w.edges.len() <= k < r.edges.len() implies {
            let e = #[trigger] r.edges[k];
            e.1 == level && exists|n: Seq<char>, f: Seq<char>|
                #![trigger frontier.contains(n), r.ends.contains(f)]
                frontier.contains(n) && r.ends.contains(f) && is_far_end(direction, e.0, f)
                    && touches(direction, e.0, n) && (f == e.0.caller_name && goes_by(
                    e.0.callee_name,
                    n,
                ) || f == e.0.callee_name && goes_by(e.0.caller_name, n))
        } by {
            if k < b.edges.len() {
                let e = b.edges[k];
                assert(r.edges[k] == e);
                let (n, f) = choose|n: Seq<char>, f: Seq<char>|
                    #![trigger frontier.contains(n), b.ends.contains(f)]
                    frontier.contains(n) && b.ends.contains(f) && is_far_end(direction, e.0, f)
                        && touches(direction, e.0, n) && (f == e.0.caller_name && goes_by(
                        e.0.callee_name,
                        n,
                    ) || f == e.0.callee_name && goes_by(e.0.caller_name, n));
                assert(frontier.contains(n) && r.ends.contains(f));
            } else if expand::goes_up(direction) && expand::matches(c.callee_name, frontier) {
                let n = choose|n: Seq<char>| #[trigger]
                    frontier.contains(n) && goes_by(c.callee_name, n);
                assert(frontier.contains(n) && r.ends.contains(c.caller_name));
            } else {
                let n = choose|n: Seq<char>| #[trigger]
                    frontier.contains(n) && goes_by(c.caller_name, n);
                assert(frontier.contains(n) && r.ends.contains(c.callee_name));
            }
        }
        assert forall|f: Seq<char>| #[trigger] r.ends.contains(f) implies w.ends.contains(f)
            || exists|k: int|
            w.edges.len() <= k < r.edges.len() && is_far_end(direction, (#[trigger] r.edges[k]).0, f) by {
            if b.ends.contains(f) {
                if !w.ends.contains(f) {
                    let k = choose|k: int|
                        w.edges.len() <= k < b.edges.len() && is_far_end(
                            direction,
                            (#[trigger] b.edges[k]).0,
                            f,
                        );
                    assert(r.edges[k] == b.edges[k]);
                }
            } else {
                assert(r.edges[b.edges.len() as int].0 == c);
            }
        }
    }
}

/// Every call that touches the frontier of a level with room to spare is shown behind it.
proof fn lemma_level_shows(
    w: Walk,
    calls: Seq<CallEdgeView>,
    frontier: Set<Seq<char>>,
    direction: Seq<char>,
    level: usize,
    limit: nat,
    name: Seq<char>,
)
    requires
        frontier.contains(name),
        forall|k: int| 0 <= k < w.edges.len() ==> (#[trigger] w.edges[k]).1 <= level,
        expand::walk_calls(w, calls, frontier, direction, level, limit).edges.len() < limit,
    ensures
        shows_all(
            expand::walk_calls(w, calls, frontier, direction, level, limit).edges,
            calls,
            direction,
            name,
            level as int,
        ),
        forall|k: int|
            0 <= k < expand::walk_calls(w, calls, frontier, direction, level, limit).edges.len()
                ==> (#[trigger] expand::walk_calls(
                w,
                calls,
                frontier,
                direction,
                level,
                limit,
            ).edges[k]).1 <= level,
    decreases calls.len(),
{
    let r = expand::walk_calls(w, calls, frontier, direction, level, limit);
    if calls.len() > 0 {
        let short = calls.drop_last();
        let b = expand::walk_calls(w, short, frontier, direction, level, limit);
        let c = calls.last();
        lemma_level_shows(w, short, frontier, direction, level, limit, name);
        lemma_matches(c.callee_name, frontier);
        lemma_matches(c.caller_name, frontier);
        assert forall|i: int|
            0 <= i < calls.len() && touches(direction, #[trigger] calls[i], name) implies is_shown(
            r.edges,
            calls[i],
            level as int,
        ) by {
            if i < short.len() {
                assert(short[i] == calls[i]);
                lemma_still_shown(b.edges, r.edges, calls[i], level as int);
            } else if expand::is_reached(b.edges, c) {
                let k = choose|k: int|
                    0 <= k < b.edges.len() && expand::same_edge((#[trigger] b.edges[k]).0, c);
                assert(r.edges[k] == b.edges[k]);
            } else {
                assert(expand::goes_up(direction) && expand::matches(c.callee_name, frontier)
                    || expand::goes_down(direction) && expand::matches(c.caller_name, frontier));
                assert(r.edges[b.edges.len() as int] == (c, level));
            }
        }
    }
}

/// What is shown stays shown when more follows.
proof fn lemma_still_shown(
    a: Seq<(CallEdgeView, usize)>,
    b: Seq<(CallEdgeView, usize)>,
    c: CallEdgeView,
    depth: int,
)
    requires
        a.len() <= b.len(),
        forall|k: int| 0 <= k < a.len() ==> #[trigger] b[k] == a[k],
        is_shown(a, c, depth),
    ensures
        is_shown(b, c, depth),
{
    let k = choose|k: int|
        0 <= k < a.len() && (#[trigger] a[k]).1 <= depth && a[k].0.caller_name == c.caller_name
            && a[k].0.callee_name == c.callee_name && a[k].0.location.file == c.location.file
            && a[k].0.location.line == c.location.line && a[k].0.location.column
            == c.location.column;
    assert(b[k] == a[k]);
}

/// What is shown of a name stays shown when more follows, and deeper.
proof fn lemma_still_all(
    a: Seq<(CallEdgeView, usize)>,
    b: Seq<(CallEdgeView, usize)>,
    calls: Seq<CallEdgeView>,
    direction: Seq<char>,
    name: Seq<char>,
    depth: int,
    deeper: int,
)
    requires
        a.len() <= b.len(),
        b.take(a.len() as int) == a,
        shows_all(a, calls, direction, name, depth),
        depth <= deeper,
    ensures
        shows_all(b, calls, direction, name, deeper),
{
    assert forall|k: int| 0 <= k < a.len() implies #[trigger] b[k] == a[k] by {
        assert(b.take(a.len() as int)[k] == b[k]);
    }
    assert forall|i: int|
        0 <= i < calls.len() && touches(direction, #[trigger] calls[i], name) implies is_shown(
        b,
        calls[i],
        deeper,
    ) by {
        lemma_still_shown(a, b, calls[i], depth);
        let k = choose|k: int|
            0 <= k < b.len() && (#[trigger] b[k]).1 <= depth && b[k].0.caller_name
                == calls[i].caller_name && b[k].0.callee_name == calls[i].callee_name
                && b[k].0.location.file == calls[i].location.file && b[k].0.location.line
                == calls[i].location.line && b[k].0.location.column == calls[i].location.column;
        assert(b[k].1 <= deeper);
    }
}

/// What is known before a level with room to spare: all about the names that were walked from, and
/// about both ends of every edge, unless the end is in the frontier.
spec fn known(
    edges: Seq<(CallEdgeView, usize)>,
    calls: Seq<CallEdgeView>,
    frontier: Set<Seq<char>>,
    visited: Set<Seq<char>>,
    direction: Seq<char>,
    level: int,
) -> bool {
    &&& forall|k: int| 0 <= k < edges.len() ==> (#[trigger] edges[k]).1 < level
    &&& forall|n: Seq<char>| #[trigger]
        visited.contains(n) && !frontier.contains(n) ==> shows_all(
            edges,
            calls,
            direction,
            n,
            level - 1,
        )
    &&& forall|n: Seq<char>| #[trigger] frontier.contains(n) ==> visited.contains(n)
    &&& forall|k: int|
        0 <= k < edges.len() ==> end_known(
            edges,
            calls,
            frontier,
            direction,
            level,
            (#[trigger] edges[k]).1 as int,
            edges[k].0.caller_name,
        ) && end_known(
            edges,
            calls,
            frontier,
            direction,
            level,
            edges[k].1 as int,
            edges[k].0.callee_name,
        )
}

/// What is known of an end of an edge: every call that touches it is shown, at most one deeper, or
/// it is in the frontier of the next level.
spec fn end_known(
    edges: Seq<(CallEdgeView, usize)>,
    calls: Seq<CallEdgeView>,
    frontier: Set<Seq<char>>,
    direction: Seq<char>,
    level: int,
    depth: int,
    name: Seq<char>,
) -> bool {
    shows_all(edges, calls, direction, name, depth + 1) || (frontier.contains(name) && depth + 1
        == level)
}

/// What is known of an end of an edge stays known through a level.
proof fn lemma_old_end(
    edges: Seq<(CallEdgeView, usize)>,
    after: Seq<(CallEdgeView, usize)>,
    calls: Seq<CallEdgeView>,
    frontier: Set<Seq<char>>,
    next: Set<Seq<char>>,
    direction: Seq<char>,
    level: int,
    depth: int,
    name: Seq<char>,
)
    requires
        edges.len() <= after.len(),
        after.take(edges.len() as int) == edges,
        end_known(edges, calls, frontier, direction, level, depth, name),
        frontier.contains(name) ==> shows_all(after, calls, direction, name, level),
    ensures
        end_known(after, calls, next, direction, level + 1, depth, name),
{
    if shows_all(edges, calls, direction, name, depth + 1) {
        lemma_still_all(edges, after, calls, direction, name, depth + 1, depth + 1);
    }
}

/// What touches a name that goes by another touches the other.
proof fn lemma_near_end(
    edges: Seq<(CallEdgeView, usize)>,
    calls: Seq<CallEdgeView>,
    direction: Seq<char>,
    n: Seq<char>,
    m: Seq<char>,
    level: int,
)
    requires
        goes_by(n, m),
        shows_all(edges, calls, direction, m, level),
    ensures
        shows_all(edges, calls, direction, n, level + 1),
{
    assert forall|i: int| 0 <= i < calls.len() && touches(direction, #[trigger] calls[i], n) implies is_shown(
        edges,
        calls[i],
        level,
    ) by {
        if goes_by(calls[i].callee_name, n) {
            lemma_goes_by(calls[i].callee_name, n, m);
        }
        if goes_by(calls[i].caller_name, n) {
            lemma_goes_by(calls[i].caller_name, n, m);
        }
        assert(touches(direction, calls[i], m));
    }
    assert(shows_all(edges, calls, direction, n, level));
    assert(edges.take(edges.len() as int) =~= edges);
    lemma_still_all(edges, edges, calls, direction, n, level, level + 1);
}

/// One level keeps what is known.
proof fn lemma_level_known(
    edges: Seq<(CallEdgeView, usize)>,
    calls: Seq<CallEdgeView>,
    frontier: Set<Seq<char>>,
    visited: Set<Seq<char>>,
    direction: Seq<char>,
    level: int,
    limit: nat,
)
    requires
        known(edges, calls, frontier, visited, direction, level),
        1 <= level <= usize::MAX,
        expand::walk_calls(
            Walk { edges, ends: Set::empty() },
            calls,
            frontier,
            direction,
            level as usize,
            limit,
        ).edges.len() < limit,
    ensures
        ({
            let w = expand::walk_calls(
                Walk { edges, ends: Set::empty() },
                calls,
                frontier,
                direction,
                level as usize,
                limit,
            );
            let next = w.ends.difference(visited);
            known(w.edges, calls, next, visited.union(next), direction, level + 1)
        }),
{
    let start = Walk { edges, ends: Set::empty() };
    let w = expand::walk_calls(start, calls, frontier, direction, level as usize, limit);
    let next = w.ends.difference(visited);
    let seen = visited.union(next);
    lemma_added(start, calls, frontier, direction, level as usize, limit);
    assert forall|k: int| 0 <= k < edges.len() implies #[trigger] w.edges[k] == edges[k] by {
        assert(w.edges.take(edges.len() as int)[k] == w.edges[k]);
    }
    assert forall|n: Seq<char>| #[trigger] visited.contains(n) implies shows_all(
        w.edges,
        calls,
        direction,
        n,
        level,
    ) by {
        if frontier.contains(n) {
            lemma_level_shows(start, calls, frontier, direction, level as usize, limit, n);
        } else {
            lemma_still_all(edges, w.edges, calls, direction, n, level - 1, level);
        }
    }
    assert(w.edges.take(w.edges.len() as int) =~= w.edges);
    assert forall|k: int| 0 <= k < w.edges.len() implies end_known(
        w.edges,
        calls,
        next,
        direction,
        level + 1,
        (#[trigger] w.edges[k]).1 as int,
        w.edges[k].0.caller_name,
    ) && end_known(
        w.edges,
        calls,
        next,
        direction,
        level + 1,
        w.edges[k].1 as int,
        w.edges[k].0.callee_name,
    ) by {
        let e = w.edges[k];
        let d = e.1 as int;
        if k < edges.len() {
            assert(e == edges[k]);
            lemma_old_end(edges, w.edges, calls, frontier, next, direction, level, d, e.0.caller_name);
            lemma_old_end(edges, w.edges, calls, frontier, next, direction, level, d, e.0.callee_name);
        } else {
            let (m, f) = choose|m: Seq<char>, f: Seq<char>|
                #![trigger frontier.contains(m), w.ends.contains(f)]
                frontier.contains(m) && w.ends.contains(f) && is_far_end(direction, e.0, f)
                    && touches(direction, e.0, m) && (f == e.0.caller_name && goes_by(
                    e.0.callee_name,
                    m,
                ) || f == e.0.callee_name && goes_by(e.0.caller_name, m));
            assert(visited.contains(m));
            let near = if f == e.0.caller_name && goes_by(e.0.callee_name, m) {
                e.0.callee_name
            } else {
                e.0.caller_name
            };
            lemma_near_end(w.edges, calls, direction, near, m, level);
            if visited.contains(f) {
                lemma_still_all(w.edges, w.edges, calls, direction, f, level, level + 1);
            } else {
                assert(next.contains(f));
            }
        }
    }
    assert forall|k: int| 0 <= k < w.edges.len() implies (#[trigger] w.edges[k]).1 < level + 1 by {
        if k < edges.len() {
            assert(w.edges[k] == edges[k]);
        }
    }
}

/// What a walk that ends below its limit shows of the ends of its edges.
proof fn lemma_levels_known(
    edges: Seq<(CallEdgeView, usize)>,
    calls: Seq<CallEdgeView>,
    frontier: Set<Seq<char>>,
    visited: Set<Seq<char>>,
    direction: Seq<char>,
    level: int,
    depth: usize,
    limit: nat,
    k: int,
    name: Seq<char>,
)
    requires
        known(edges, calls, frontier, visited, direction, level),
        1 <= level <= depth + 1,
        ({
            let all = expand::walk_levels(
                edges,
                calls,
                frontier,
                visited,
                direction,
                level,
                depth,
                limit,
            );
            &&& all.len() < limit
            &&& 0 <= k < all.len()
            &&& all[k].1 < depth
            &&& name == all[k].0.caller_name || name == all[k].0.callee_name
        }),
    ensures
        ({
            let all = expand::walk_levels(
                edges,
                calls,
                frontier,
                visited,
                direction,
                level,
                depth,
                limit,
            );
            shows_all(all, calls, direction, name, all[k].1 + 1)
        }),
    decreases depth - level + 1,
{
    if level <= depth {
        let start = Walk { edges, ends: Set::empty() };
        let w = expand::walk_calls(start, calls, frontier, direction, level as usize, limit);
        let next = w.ends.difference(visited);
        if w.edges.len() < limit {
            lemma_level_known(edges, calls, frontier, visited, direction, level, limit);
            if next != Set::<Seq<char>>::empty() {
                lemma_levels_known(
                    w.edges,
                    calls,
                    next,
                    visited.union(next),
                    direction,
                    level + 1,
                    depth,
                    limit,
                    k,
                    name,
                );
            } else {
                assert(!next.contains(name));
            }
        }
    }
}

/// The names that start a walk.
proof fn lemma_starts(ix: IndexView, seed: Seq<char>, name: Seq<char>)
    ensures
        expand::aliases(ix, seed).contains(name) <==> is_start(ix, seed, name),
{
    let all = index::defined_as(ix.definitions, seed);
    if expand::is_alias(ix, seed, name) && name != seed && name != text::simple(seed) {
        let k = choose|k: int|
            0 <= k < all.len() && {
                let d = #[trigger] all[k];
                name == d.name || name == d.qualified_name
            };
        assert(all.contains(all[k]));
    }
    if is_start(ix, seed, name) && name != seed && name != text::simple(seed) {
        let d = choose|d: DefinitionView| #[trigger]
            all.contains(d) && (name == d.name || name == d.qualified_name);
        let k = choose|k: int| 0 <= k < all.len() && all[k] == d;
        assert(name == all[k].name || name == all[k].qualified_name);
    }
}

/// A walk that ends below its limit misses nothing: every call that touches an end of an edge that
/// it shows, above the depth that was asked for, is shown too, at most one deeper.
pub proof fn law_expansion_goes_on_to_the_depth(
    ix: IndexView,
    seed: Seq<char>,
    direction: Seq<char>,
    depth: usize,
    limit: nat,
    k: int,
    name: Seq<char>,
    i: int,
)
    requires
        expand::expansion(ix, seed, direction, depth, limit).len() < limit,
        0 <= k < expand::expansion(ix, seed, direction, depth, limit).len(),
        expand::expansion(ix, seed, direction, depth, limit)[k].1 < depth,
        ({
            let c = expand::expansion(ix, seed, direction, depth, limit)[k].0;
            name == c.caller_name || name == c.callee_name
        }),
        0 <= i < ix.calls.len(),
        touches(direction, ix.calls[i], name),
    ensures
        is_shown(
            expand::expansion(ix, seed, direction, depth, limit),
            ix.calls[i],
            expand::expansion(ix, seed, direction, depth, limit)[k].1 + 1,
        ),
{
    let starts = expand::aliases(ix, seed);
    assert(known(Seq::empty(), ix.calls, starts, starts, direction, 1));
    lemma_levels_known(
        Seq::empty(),
        ix.calls,
        starts,
        starts,
        direction,
        1,
        depth,
        limit,
        k,
        name,
    );
}

/// What a walk starts with stands in front of what it ends with.
proof fn lemma_levels_front(
    edges: Seq<(CallEdgeView, usize)>,
    calls: Seq<CallEdgeView>,
    frontier: Set<Seq<char>>,
    visited: Set<Seq<char>>,
    direction: Seq<char>,
    level: int,
    depth: usize,
    limit: nat,
)
    ensures
        ({
            let all = expand::walk_levels(
                edges,
                calls,
                frontier,
                visited,
                direction,
                level,
                depth,
                limit,
            );
            &&& edges.len() <= all.len()
            &&& all.take(edges.len() as int) == edges
        }),
    decreases depth - level + 1,
{
    let all = expand::walk_levels(
        edges,
        calls,
        frontier,
        visited,
        direction,
        level,
        depth,
        limit,
    );
    if level <= depth {
        let start = Walk { edges, ends: Set::empty() };
        let w = expand::walk_calls(start, calls, frontier, direction, level as usize, limit);
        let next = w.ends.difference(visited);
        lemma_added(start, calls, frontier, direction, level as usize, limit);
        if !(next == Set::<Seq<char>>::empty() || w.edges.len() >= limit) {
            lemma_levels_front(
                w.edges,
                calls,
                next,
                visited.union(next),
                direction,
                level + 1,
                depth,
                limit,
            );
            assert(all.take(edges.len() as int) =~= all.take(w.edges.len() as int).take(
                edges.len() as int,
            ));
        } else {
            assert(all.take(edges.len() as int) =~= w.edges.take(edges.len() as int));
        }
    } else {
        assert(all.take(edges.len() as int) =~= edges);
    }
}

/// A walk that ends below its limit shows every call that touches a name that it starts from, at
/// depth one.
pub proof fn law_expansion_shows_calls_of_the_seed_first(
    ix: IndexView,
    seed: Seq<char>,
    direction: Seq<char>,
    depth: usize,
    limit: nat,
    name: Seq<char>,
    i: int,
)
    requires
        1 <= depth,
        expand::expansion(ix, seed, direction, depth, limit).len() < limit,
        is_start(ix, seed, name),
        0 <= i < ix.calls.len(),
        touches(direction, ix.calls[i], name),
    ensures
        is_shown(expand::expansion(ix, seed, direction, depth, limit), ix.calls[i], 1),
{
    let starts = expand::aliases(ix, seed);
    let all = expand::expansion(ix, seed, direction, depth, limit);
    let start = Walk { edges: Seq::empty(), ends: Set::empty() };
    let w = expand::walk_calls(start, ix.calls, starts, direction, 1, limit);
    let next = w.ends.difference(starts);
    lemma_starts(ix, seed, name);
    if w.edges.len() < limit && next != Set::<Seq<char>>::empty() {
        lemma_levels_front(
            w.edges,
            ix.calls,
            next,
            starts.union(next),
            direction,
            2,
            depth,
            limit,
        );
    }
    lemma_level_shows(start, ix.calls, starts, direction, 1, limit, name);
    assert forall|k: int| 0 <= k < w.edges.len() implies #[trigger] all[k] == w.edges[k] by {
        assert(all.take(w.edges.len() as int)[k] == all[k]);
    }
    assert(is_shown(w.edges, ix.calls[i], 1));
    lemma_still_shown(w.edges, all, ix.calls[i], 1);
}

/// Whether calls form a chain: the first touches a name that the walk starts from, and each other
/// one an end of the one before it.
pub open spec fn is_chain(
    ix: IndexView,
    seed: Seq<char>,
    direction: Seq<char>,
    chain: Seq<CallEdgeView>,
) -> bool {
    &&& chain.len() > 0
    &&& forall|i: int| 0 <= i < chain.len() ==> ix.calls.contains(#[trigger] chain[i])
    &&& exists|n: Seq<char>| #[trigger]
        is_start(ix, seed, n) && touches(direction, chain[0], n)
    &&& forall|i: int|
        0 < i < chain.len() ==> touches(direction, #[trigger] chain[i], chain[i - 1].caller_name)
            || touches(direction, chain[i], chain[i - 1].callee_name)
}

/// A walk that ends below its limit shows every call at the end of a chain that is no longer than
/// the depth that was asked for, at most as deep as the chain is long.
pub proof fn law_expansion_shows_every_chain(
    ix: IndexView,
    seed: Seq<char>,
    direction: Seq<char>,
    depth: usize,
    limit: nat,
    chain: Seq<CallEdgeView>,
)
    requires
        expand::expansion(ix, seed, direction, depth, limit).len() < limit,
        is_chain(ix, seed, direction, chain),
        chain.len() <= depth,
    ensures
        is_shown(
            expand::expansion(ix, seed, direction, depth, limit),
            chain.last(),
            chain.len() as int,
        ),
    decreases chain.len(),
{
    let all = expand::expansion(ix, seed, direction, depth, limit);
    let c = chain.last();
    assert(chain[chain.len() - 1] == c);
    let i = choose|i: int| 0 <= i < ix.calls.len() && ix.calls[i] == c;
    if chain.len() == 1 {
        let n = choose|n: Seq<char>| #[trigger]
            is_start(ix, seed, n) && touches(direction, chain[0], n);
        law_expansion_shows_calls_of_the_seed_first(ix, seed, direction, depth, limit, n, i);
    } else {
        let short = chain.drop_last();
        assert forall|j: int| 0 <= j < short.len() implies ix.calls.contains(
            #[trigger] short[j],
        ) by {
            assert(short[j] == chain[j]);
        }
        assert forall|j: int| 0 < j < short.len() implies touches(
            direction,
            #[trigger] short[j],
            short[j - 1].caller_name,
        ) || touches(direction, short[j], short[j - 1].callee_name) by {
            assert(short[j] == chain[j] && short[j - 1] == chain[j - 1]);
        }
        assert(short[0] == chain[0]);
        law_expansion_shows_every_chain(ix, seed, direction, depth, limit, short);
        let b = short.last();
        assert(b == chain[chain.len() - 2]);
        let k = choose|k: int|
            0 <= k < all.len() && (#[trigger] all[k]).1 <= short.len() && all[k].0.caller_name
                == b.caller_name && all[k].0.callee_name == b.callee_name
                && all[k].0.location.file == b.location.file && all[k].0.location.line
                == b.location.line && all[k].0.location.column == b.location.column;
        let n = if touches(direction, c, b.caller_name) {
            b.caller_name
        } else {
            b.callee_name
        };
        law_expansion_goes_on_to_the_depth(ix, seed, direction, depth, limit, k, n, i);
        let j = choose|j: int|
            0 <= j < all.len() && (#[trigger] all[j]).1 <= all[k].1 + 1 && all[j].0.caller_name
                == c.caller_name && all[j].0.callee_name == c.callee_name
                && all[j].0.location.file == c.location.file && all[j].0.location.line
                == c.location.line && all[j].0.location.column == c.location.column;
        assert(all[j].1 <= chain.len());
    }
}

/// Whether an edge was reached the way its depth says: at depth one it touches a name that the walk
/// starts from; deeper, it touches the far end of an edge that stands before it, one less deep.
pub open spec fn is_reached_rightly(
    edges: Seq<(CallEdgeView, usize)>,
    starts: Set<Seq<char>>,
    direction: Seq<char>,
    k: int,
) -> bool {
    if edges[k].1 == 1 {
        exists|n: Seq<char>| #[trigger] starts.contains(n) && touches(direction, edges[k].0, n)
    } else {
        exists|j: int, n: Seq<char>|
            #![trigger edges[j], touches(direction, edges[k].0, n)]
            0 <= j < k && edges[j].1 + 1 == edges[k].1 && is_far_end(direction, edges[j].0, n)
                && touches(direction, edges[k].0, n)
    }
}

/// Whether every edge was reached the way its depth says, and edges stand in the order of their
/// depths.
spec fn all_right(
    edges: Seq<(CallEdgeView, usize)>,
    starts: Set<Seq<char>>,
    direction: Seq<char>,
) -> bool {
    &&& forall|k: int|
        0 <= k < edges.len() ==> #[trigger] is_reached_rightly(edges, starts, direction, k)
    &&& forall|j: int, k: int|
        0 <= j < k < edges.len() ==> (#[trigger] edges[j]).1 <= (#[trigger] edges[k]).1
}

/// Every edge of a walk was reached the way its depth says.
proof fn lemma_levels_right(
    edges: Seq<(CallEdgeView, usize)>,
    calls: Seq<CallEdgeView>,
    frontier: Set<Seq<char>>,
    visited: Set<Seq<char>>,
    direction: Seq<char>,
    level: int,
    depth: usize,
    limit: nat,
    starts: Set<Seq<char>>,
)
    requires
        1 <= level,
        all_right(edges, starts, direction),
        forall|k: int| 0 <= k < edges.len() ==> (#[trigger] edges[k]).1 < level,
        level == 1 ==> frontier == starts,
        level > 1 ==> forall|n: Seq<char>| #[trigger]
            frontier.contains(n) ==> exists|j: int|
                0 <= j < edges.len() && (#[trigger] edges[j]).1 + 1 == level && is_far_end(
                    direction,
                    edges[j].0,
                    n,
                ),
    ensures
        all_right(
            expand::walk_levels(edges, calls, frontier, visited, direction, level, depth, limit),
            starts,
            direction,
        ),
    decreases depth - level + 1,
{
    let all = expand::walk_levels(
        edges,
        calls,
        frontier,
        visited,
        direction,
        level,
        depth,
        limit,
    );
    if level <= depth {
        let start = Walk { edges, ends: Set::empty() };
        let w = expand::walk_calls(start, calls, frontier, direction, level as usize, limit);
        let next = w.ends.difference(visited);
        lemma_added(start, calls, frontier, direction, level as usize, limit);
        assert forall|k: int| 0 <= k < edges.len() implies #[trigger] w.edges[k] == edges[k] by {
            assert(w.edges.take(edges.len() as int)[k] == w.edges[k]);
        }
        assert forall|k: int| 0 <= k < w.edges.len() implies #[trigger] is_reached_rightly(
            w.edges,
            starts,
            direction,
            k,
        ) by {
            let e = w.edges[k];
            if k < edges.len() {
                assert(e == edges[k]);
                assert(is_reached_rightly(edges, starts, direction, k));
                if e.1 != 1 {
                    let (j, n) = choose|j: int, n: Seq<char>|
                        #![trigger edges[j], touches(direction, edges[k].0, n)]
                        0 <= j < k && edges[j].1 + 1 == edges[k].1 && is_far_end(
                            direction,
                            edges[j].0,
                            n,
                        ) && touches(direction, edges[k].0, n);
                    assert(w.edges[j] == edges[j]);
                    assert(touches(direction, w.edges[k].0, n));
                }
            } else {
                let (m, f) = choose|m: Seq<char>, f: Seq<char>|
                    #![trigger frontier.contains(m), w.ends.contains(f)]
                    frontier.contains(m) && w.ends.contains(f) && is_far_end(direction, e.0, f)
                        && touches(direction, e.0, m) && (f == e.0.caller_name && goes_by(
                        e.0.callee_name,
                        m,
                    ) || f == e.0.callee_name && goes_by(e.0.caller_name, m));
                if level > 1 {
                    let j = choose|j: int|
                        0 <= j < edges.len() && (#[trigger] edges[j]).1 + 1 == level && is_far_end(
                            direction,
                            edges[j].0,
                            m,
                        );
                    assert(w.edges[j] == edges[j]);
                    assert(touches(direction, w.edges[k].0, m));
                } else {
                    assert(starts.contains(m));
                }
            }
        }
        assert forall|j: int, k: int| 0 <= j < k < w.edges.len() implies (#[trigger] w.edges[j]).1
            <= (#[trigger] w.edges[k]).1 by {
            if k < edges.len() {
                assert(w.edges[j] == edges[j] && w.edges[k] == edges[k]);
            }
        }
        if !(next == Set::<Seq<char>>::empty() || w.edges.len() >= limit) {
            assert forall|n: Seq<char>| #[trigger] next.contains(n) implies exists|j: int|
                0 <= j < w.edges.len() && (#[trigger] w.edges[j]).1 + 1 == level + 1
                    && is_far_end(direction, w.edges[j].0, n) by {
                assert(w.ends.contains(n));
                let j = choose|j: int|
                    edges.len() <= j < w.edges.len() && is_far_end(
                        direction,
                        (#[trigger] w.edges[j]).0,
                        n,
                    );
                assert(w.edges[j].1 == level);
            }
            lemma_levels_right(
                w.edges,
                calls,
                next,
                visited.union(next),
                direction,
                level + 1,
                depth,
                limit,
                starts,
            );
        } else {
            assert(all == w.edges);
        }
    }
}

/// Every edge that a walk shows was reached the way its depth says: at depth one it touches a name
/// that the walk starts from; deeper, it touches the far end of an edge that is shown before it,
/// one less deep. Edges stand in the order of their depths.
pub proof fn law_expansion_reaches_what_it_shows(
    ix: IndexView,
    seed: Seq<char>,
    direction: Seq<char>,
    depth: usize,
    limit: nat,
    k: int,
)
    requires
        0 <= k < expand::expansion(ix, seed, direction, depth, limit).len(),
    ensures
        ({
            let all = expand::expansion(ix, seed, direction, depth, limit);
            let e = all[k];
            &&& forall|j: int| 0 <= j < k ==> (#[trigger] all[j]).1 <= e.1
            &&& e.1 >= 1
            &&& e.1 == 1 ==> exists|n: Seq<char>| #[trigger]
                is_start(ix, seed, n) && touches(direction, e.0, n)
            &&& e.1 > 1 ==> exists|j: int, n: Seq<char>|
                #![trigger all[j], touches(direction, e.0, n)]
                0 <= j < k && all[j].1 + 1 == e.1 && is_far_end(direction, all[j].0, n) && touches(
                    direction,
                    e.0,
                    n,
                )
        }),
{
    let starts = expand::aliases(ix, seed);
    let all = expand::expansion(ix, seed, direction, depth, limit);
    lemma_levels_right(
        Seq::empty(),
        ix.calls,
        starts,
        starts,
        direction,
        1,
        depth,
        limit,
        starts,
    );
    assert(is_reached_rightly(all, starts, direction, k));
    if all[k].1 == 1 {
        let n = choose|n: Seq<char>| #[trigger]
            starts.contains(n) && touches(direction, all[k].0, n);
        lemma_starts(ix, seed, n);
        assert(is_start(ix, seed, n));
    }
}

/// A smaller limit cuts a level short and changes nothing else.
proof fn lemma_walk_limits(
    w: Walk,
    calls: Seq<CallEdgeView>,
    frontier: Set<Seq<char>>,
    direction: Seq<char>,
    level: usize,
    less: nat,
    more: nat,
)
    requires
        less <= more,
        w.edges.len() <= less,
    ensures
        ({
            let a = expand::walk_calls(w, calls, frontier, direction, level, less);
            let b = expand::walk_calls(w, calls, frontier, direction, level, more);
            &&& b.edges.len() < less ==> a == b
            &&& b.edges.len() >= less ==> a.edges == b.edges.take(less as int)
        }),
    decreases calls.len(),
{
    let a = expand::walk_calls(w, calls, frontier, direction, level, less);
    let b = expand::walk_calls(w, calls, frontier, direction, level, more);
    if calls.len() == 0 {
        if w.edges.len() >= less {
            assert(a.edges =~= b.edges.take(less as int));
        }
    } else {
        let short = calls.drop_last();
        lemma_walk_limits(w, short, frontier, direction, level, less, more);
        let b0 = expand::walk_calls(w, short, frontier, direction, level, more);
        if b.edges.len() >= less {
            assert(a.edges =~= b.edges.take(less as int));
        }
    }
}

/// A smaller limit cuts a walk short and changes nothing else.
proof fn lemma_levels_limits(
    edges: Seq<(CallEdgeView, usize)>,
    calls: Seq<CallEdgeView>,
    frontier: Set<Seq<char>>,
    visited: Set<Seq<char>>,
    direction: Seq<char>,
    level: int,
    depth: usize,
    less: nat,
    more: nat,
)
    requires
        less <= more,
        edges.len() <= less,
    ensures
        ({
            let a = expand::walk_levels(
                edges,
                calls,
                frontier,
                visited,
                direction,
                level,
                depth,
                less,
            );
            let b = expand::walk_levels(
                edges,
                calls,
                frontier,
                visited,
                direction,
                level,
                depth,
                more,
            );
            &&& b.len() < less ==> a == b
            &&& b.len() >= less ==> a == b.take(less as int)
        }),
    decreases depth - level + 1,
{
    let a = expand::walk_levels(edges, calls, frontier, visited, direction, level, depth, less);
    let b = expand::walk_levels(edges, calls, frontier, visited, direction, level, depth, more);
    if level <= depth {
        let start = Walk { edges, ends: Set::empty() };
        let wa = expand::walk_calls(start, calls, frontier, direction, level as usize, less);
        let wb = expand::walk_calls(start, calls, frontier, direction, level as usize, more);
        lemma_walk_limits(start, calls, frontier, direction, level as usize, less, more);
        let next = wb.ends.difference(visited);
        let goes_on = !(next == Set::<Seq<char>>::empty() || wb.edges.len() >= more);
        if goes_on {
            lemma_levels_front(
                wb.edges,
                calls,
                next,
                visited.union(next),
                direction,
                level + 1,
                depth,
                more,
            );
        }
        if wb.edges.len() < less {
            if goes_on {
                lemma_levels_limits(
                    wb.edges,
                    calls,
                    next,
                    visited.union(next),
                    direction,
                    level + 1,
                    depth,
                    less,
                    more,
                );
            }
        } else {
            assert(wb.edges.take(wb.edges.len() as int) =~= wb.edges);
            assert(b.take(wb.edges.len() as int) == wb.edges);
            assert(b.take(less as int) =~= wb.edges.take(less as int)) by {
                assert(b.take(less as int) =~= b.take(wb.edges.len() as int).take(less as int));
            }
            assert(wa.edges.len() == less);
            assert(a == wa.edges);
        }
    } else if b.len() >= less {
        assert(a =~= b.take(less as int));
    }
}

/// A smaller limit shows the front of what a larger one shows, and all of it where that is short
/// enough.
pub proof fn law_limit_only_cuts_the_expansion_short(
    ix: IndexView,
    seed: Seq<char>,
    direction: Seq<char>,
    depth: usize,
    less: nat,
    more: nat,
)
    requires
        less <= more,
    ensures
        ({
            let a = expand::expansion(ix, seed, direction, depth, less);
            let b = expand::expansion(ix, seed, direction, depth, more);
            a == if b.len() < less {
                b
            } else {
                b.take(less as int)
            }
        }),
{
    let starts = expand::aliases(ix, seed);
    lemma_levels_limits(
        Seq::empty(),
        ix.calls,
        starts,
        starts,
        direction,
        1,
        depth,
        less,
        more,
    );
}

} // verus!
