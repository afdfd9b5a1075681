//! What holds of the symbols of every source file.
use crate::cpp_parser::CppParser;
use crate::cpp_parser;
use crate::def_pass::Found;
use crate::def_pass;
use crate::language::{Language, ReferenceMode};
use crate::names;
use crate::parser::Parser;
use crate::ref_pass::{RefEnv, Uses};
use crate::ref_pass;
use crate::scope::ScopeView;
use crate::scope;
use crate::syntax::{NodeKind, SyntaxTree};
use crate::syntax;
use crate::types::{
    CallEdgeView, DefinitionView, InheritEdgeView, LocationView, ReferenceView, SymbolKind,
    Visibility,
};
use vstd::prelude::*;

verus! {

/// What holds of every definition that the parser collects: it stands in a line of the file, is
/// not numbered yet, and is named below its parent. Only a macro has no parent inside a scope;
/// it is public and a definition.
pub open spec fn well_named(path: Seq<char>, d: DefinitionView) -> bool {
    &&& d.location.file == path
    &&& d.location.line >= 1
    &&& d.id is None
    &&& d.extra is None
    &&& d.kind != SymbolKind::Macro ==> d.qualified_name == scope::name_in(d.parent, d.name)
    &&& d.kind == SymbolKind::Macro ==> d.parent is None && d.visibility == Visibility::Public
        && d.is_definition
}

/// What holds of every base that the parser collects: it has a name and stands in a line of the
/// file.
pub open spec fn named_base(path: Seq<char>, e: InheritEdgeView) -> bool {
    e.location.file == path && e.location.line >= 1 && e.base_name.len() > 0
}

proof fn lemma_bases(
    path: Seq<char>,
    source: Seq<char>,
    t: SyntaxTree,
    i: int,
    derived: Seq<char>,
    default: Visibility,
    access: Option<Visibility>,
    is_virtual: bool,
)
    ensures
        forall|e: InheritEdgeView|
            def_pass::bases_from(
                path,
                source,
                t,
                i,
                derived,
                default,
                access,
                is_virtual,
            ).contains(e) ==> #[trigger] named_base(path, e),
    decreases t.children.len() - i,
{
    if 0 <= i < t.children.len() {
        let c = t.children[i];
        lemma_bases(
            path,
            source,
            t,
            i + 1,
            derived,
            default,
            names::access_named(syntax::text_of(source, c)),
            is_virtual,
        );
        lemma_bases(path, source, t, i + 1, derived, default, access, true);
        lemma_bases(path, source, t, i + 1, derived, default, None, false);
        lemma_bases(path, source, t, i + 1, derived, default, access, is_virtual);
        let rest = def_pass::bases_from(path, source, t, i + 1, derived, default, None, false);
        assert forall|e: InheritEdgeView, f: InheritEdgeView| #[trigger]
            (seq![f] + rest).contains(e) implies e == f || rest.contains(e) by {
            let k = choose|k: int| 0 <= k < (seq![f] + rest).len() && (seq![f] + rest)[k] == e;
            if k > 0 {
                assert(rest[k - 1] == e);
            }
        }
    }
}

/// Whether all that the definition pass found is in order.
spec fn found_ok(path: Seq<char>, f: Found) -> bool {
    &&& forall|i: int| 0 <= i < f.definitions.len() ==> well_named(path, #[trigger] f.definitions[i])
    &&& forall|i: int| 0 <= i < f.inherits.len() ==> named_base(path, #[trigger] f.inherits[i])
}

proof fn lemma_declared(
    path: Seq<char>,
    source: Seq<char>,
    t: SyntaxTree,
    i: int,
    scopes: Seq<ScopeView>,
    visibility: Visibility,
)
    ensures
        ({
            let all = def_pass::declared_from(path, source, t, i, scopes, visibility);
            forall|k: int| 0 <= k < all.len() ==> well_named(path, #[trigger] all[k])
        }),
    decreases t.children.len() - i,
{
    if 0 <= i < t.children.len() {
        lemma_declared(path, source, t, i + 1, scopes, visibility);
        let own = if def_pass::is_value(t, i) {
            None
        } else {
            def_pass::declared_by(path, source, t, t.children[i], scopes, visibility)
        };
        let rest = def_pass::declared_from(path, source, t, i + 1, scopes, visibility);
        let all = def_pass::declared_from(path, source, t, i, scopes, visibility);
        assert(all == def_pass::one_or_none(own) + rest);
        assert forall|k: int| 0 <= k < all.len() implies well_named(path, #[trigger] all[k]) by {
            if own is Some {
                if k > 0 {
                    assert(all[k] == rest[k - 1]);
                }
            } else {
                assert(all[k] == rest[k]);
            }
        }
    }
}

proof fn lemma_found_in(
    path: Seq<char>,
    source: Seq<char>,
    t: SyntaxTree,
    scopes: Seq<ScopeView>,
    visibility: Option<Visibility>,
)
    ensures
        found_ok(path, def_pass::found_in(path, source, t, scopes, visibility)),
    decreases t, t.children.len() + 1,
{
    if !def_pass::is_leaf(t) {
        let v = def_pass::in_force(visibility);
        let bases = def_pass::own_bases(path, source, t, scopes, v);
        lemma_declared(path, source, t, 0, scopes, v);
        let derived = if scopes.len() > 0 {
            scopes.last().name
        } else {
            Seq::empty()
        };
        lemma_bases(path, source, t, 0, derived, v, None, false);
        assert forall|i: int| 0 <= i < bases.len() implies named_base(path, #[trigger] bases[i]) by {
            assert(bases.contains(bases[i]));
        }
        match def_pass::opened(source, t) {
            Some((s, w)) => {
                lemma_found_from(path, source, t, 0, scopes.push(s), Some(w));
            },
            None => {
                lemma_found_from(
                    path,
                    source,
                    t,
                    0,
                    scopes,
                    def_pass::access_after(source, t, visibility),
                );
            },
        }
    }
}

proof fn lemma_found_from(
    path: Seq<char>,
    source: Seq<char>,
    t: SyntaxTree,
    i: int,
    scopes: Seq<ScopeView>,
    visibility: Option<Visibility>,
)
    ensures
        found_ok(path, def_pass::found_from(path, source, t, i, scopes, visibility)),
    decreases t, t.children.len() - i,
{
    if 0 <= i < t.children.len() {
        lemma_found_in(path, source, t.children[i], scopes, visibility);
        let first = def_pass::found_in(path, source, t.children[i], scopes, visibility);
        lemma_found_from(path, source, t, i + 1, scopes, first.visibility);
    }
}

/// Every definition carries its full name: the name of its parent, `::` and its own, or its own
/// alone outside of all scopes. Every base has a name. All of them stand in the file that was
/// read, in a line that is counted from one.
pub proof fn law_definitions_are_qualified(
    path: Seq<char>,
    source: Seq<char>,
    language: Seq<char>,
    t: SyntaxTree,
    mode: ReferenceMode,
    with_context: bool,
)
    ensures
        ({
            let s = cpp_parser::tree_symbols(path, source, language, t, mode, with_context);
            &&& forall|i: int|
                0 <= i < s.definitions.len() ==> well_named(path, #[trigger] s.definitions[i])
            &&& forall|i: int| 0 <= i < s.inherits.len() ==> named_base(path, #[trigger] s.inherits[i])
        }),
{
    lemma_found_in(path, source, t, Seq::empty(), None);
}

/// Line and column at which a location starts.
pub open spec fn start_of(l: LocationView) -> (usize, usize) {
    (l.line, l.column)
}

/// What holds of every reference: it has a name, is not resolved yet, does not stand where
/// something is defined, and carries the text of its line exactly where contexts are kept.
pub open spec fn sound_reference(env: RefEnv, r: ReferenceView) -> bool {
    &&& r.location.file == env.file
    &&& r.location.line >= 1
    &&& r.name.len() > 0
    &&& r.id is None
    &&& r.def_id is None
    &&& r.kind == SymbolKind::Function
    &&& !env.defined.contains(start_of(r.location))
    &&& r.context == if env.with_context {
        ref_pass::line_text(env.source, r.location.line as int)
    } else {
        None
    }
}

/// What holds of every call: it calls something, and not the function that it stands in.
pub open spec fn sound_call(env: RefEnv, c: CallEdgeView) -> bool {
    c.location.file == env.file && c.location.line >= 1 && c.callee_name.len() > 0 && c.callee_name
        != c.caller_name
}

/// Whether a reference stands where a call names what it calls. `called` are the places of the
/// called names, call by call.
pub open spec fn called_at(
    calls: Seq<CallEdgeView>,
    called: Seq<(usize, usize)>,
    r: ReferenceView,
) -> bool {
    exists|j: int|
        0 <= j < calls.len() && (#[trigger] calls[j]).callee_name == r.name && called[j]
            == start_of(r.location)
}

/// Whether a reference stands at a place.
pub open spec fn referenced_at(references: Seq<ReferenceView>, p: (usize, usize)) -> bool {
    exists|j: int| 0 <= j < references.len() && start_of((#[trigger] references[j]).location) == p
}

/// Whether all that the reference pass found is in order, given the places handled before.
pub open spec fn uses_ok(env: RefEnv, before: Set<(usize, usize)>, u: Uses) -> bool {
    &&& forall|i: int| 0 <= i < u.references.len() ==> sound_reference(env, #[trigger] u.references[i])
    &&& forall|i: int| 0 <= i < u.calls.len() ==> sound_call(env, #[trigger] u.calls[i])
    &&& forall|p: (usize, usize)| #[trigger] before.contains(p) ==> u.handled.contains(p)
    &&& forall|p: (usize, usize)| #[trigger]
        u.handled.contains(p) ==> before.contains(p) || referenced_at(u.references, p)
    &&& env.mode == ReferenceMode::Off ==> u.references.len() == 0
    &&& u.called.len() == u.calls.len()
    &&& env.mode != ReferenceMode::Off ==> forall|i: int|
        0 <= i < u.called.len() ==> env.defined.contains(#[trigger] u.called[i])
            || u.handled.contains(u.called[i])
    &&& env.mode == ReferenceMode::Calls ==> {
        &&& forall|i: int|
            0 <= i < u.references.len() ==> called_at(
                u.calls,
                u.called,
                #[trigger] u.references[i],
            )
        &&& forall|i: int|
            0 <= i < u.references.len() ==> u.handled.contains(
                start_of((#[trigger] u.references[i]).location),
            ) && !before.contains(start_of(u.references[i].location))
        &&& forall|i: int, j: int|
            0 <= i < j < u.references.len() ==> start_of((#[trigger] u.references[i]).location)
                != start_of((#[trigger] u.references[j]).location)
    }
}

proof fn lemma_uses_then(env: RefEnv, before: Set<(usize, usize)>, a: Uses, b: Uses)
    requires
        uses_ok(env, before, a),
        uses_ok(env, a.handled, b),
    ensures
        uses_ok(env, before, ref_pass::uses_then(a, b)),
{
    let u = ref_pass::uses_then(a, b);
    assert forall|p: (usize, usize)| #[trigger] u.handled.contains(p) implies before.contains(p)
        || referenced_at(u.references, p) by {
        if a.handled.contains(p) {
            if !before.contains(p) {
                assert(referenced_at(a.references, p));
                let j = choose|j: int|
                    0 <= j < a.references.len() && start_of((#[trigger] a.references[j]).location)
                        == p;
                assert(u.references[j] == a.references[j]);
            }
        } else {
            assert(referenced_at(b.references, p));
            let j = choose|j: int|
                0 <= j < b.references.len() && start_of((#[trigger] b.references[j]).location) == p;
            assert(u.references[a.references.len() + j] == b.references[j]);
        }
    }
    if env.mode == ReferenceMode::Calls {
        assert forall|i: int| 0 <= i < u.references.len() implies called_at(
            u.calls,
            u.called,
            #[trigger] u.references[i],
        ) by {
            if i < a.references.len() {
                assert(called_at(a.calls, a.called, a.references[i]));
                let j = choose|j: int|
                    0 <= j < a.calls.len() && (#[trigger] a.calls[j]).callee_name
                        == a.references[i].name && a.called[j] == start_of(
                        a.references[i].location,
                    );
                assert(u.calls[j] == a.calls[j]);
                assert(u.called[j] == a.called[j]);
            } else {
                let k = i - a.references.len();
                assert(called_at(b.calls, b.called, b.references[k]));
                let j = choose|j: int|
                    0 <= j < b.calls.len() && (#[trigger] b.calls[j]).callee_name
                        == b.references[k].name && b.called[j] == start_of(
                        b.references[k].location,
                    );
                assert(u.calls[a.calls.len() + j] == b.calls[j]);
                assert(u.called[a.calls.len() + j] == b.called[j]);
            }
        }
        assert forall|i: int, j: int| 0 <= i < j < u.references.len() implies start_of(
            (#[trigger] u.references[i]).location,
        ) != start_of((#[trigger] u.references[j]).location) by {
            if i < a.references.len() && j >= a.references.len() {
                assert(a.handled.contains(start_of(a.references[i].location)));
                assert(!a.handled.contains(
                    start_of(b.references[j - a.references.len()].location),
                ));
            }
        }
        assert forall|i: int| 0 <= i < u.references.len() implies u.handled.contains(
            start_of((#[trigger] u.references[i]).location),
        ) && !before.contains(start_of(u.references[i].location)) by {
            if i >= a.references.len() {
                assert(!a.handled.contains(
                    start_of(b.references[i - a.references.len()].location),
                ));
            }
        }
    }
}

pub proof fn lemma_uses_in(
    env: RefEnv,
    t: SyntaxTree,
    scopes: Seq<ScopeView>,
    function: Option<Seq<char>>,
    handled: Set<(usize, usize)>,
)
    ensures
        uses_ok(env, handled, ref_pass::uses_in(env, t, scopes, function, handled)),
    decreases t, t.children.len() + 1,
{
    let u = ref_pass::uses_in(env, t, scopes, function, handled);
    if def_pass::is_leaf(t) {
    } else {
        let own = if syntax::tag(t) == NodeKind::CallExpression {
            ref_pass::call_uses(env, t, function, handled)
        } else {
            ref_pass::no_uses(handled)
        };
        assert(uses_ok(env, handled, own)) by {
            if own.references.len() > 0 {
                assert(own.references.len() == 1 && own.calls.len() == 1);
                let at = ref_pass::spot(ref_pass::called_node(t.children[0]));
                assert(own.calls[0].callee_name == own.references[0].name);
                assert(own.called[0] == at);
                assert(start_of(own.references[0].location) == at);
                assert(called_at(own.calls, own.called, own.references[0]));
                assert(referenced_at(own.references, at));
            }
        }
        lemma_uses_from(
            env,
            t,
            0,
            ref_pass::scopes_below(env.source, t, scopes),
            ref_pass::function_below(env.source, t, scopes, function),
            own.handled,
        );
        lemma_uses_then(
            env,
            handled,
            own,
            ref_pass::uses_from(
                env,
                t,
                0,
                ref_pass::scopes_below(env.source, t, scopes),
                ref_pass::function_below(env.source, t, scopes, function),
                own.handled,
            ),
        );
    }
}

pub proof fn lemma_uses_from(
    env: RefEnv,
    t: SyntaxTree,
    i: int,
    scopes: Seq<ScopeView>,
    function: Option<Seq<char>>,
    handled: Set<(usize, usize)>,
)
    ensures
        uses_ok(env, handled, ref_pass::uses_from(env, t, i, scopes, function, handled)),
    decreases t, t.children.len() - i,
{
    if 0 <= i < t.children.len() {
        lemma_uses_in(env, t.children[i], scopes, function, handled);
        let first = ref_pass::uses_in(env, t.children[i], scopes, function, handled);
        lemma_uses_from(env, t, i + 1, scopes, function, first.handled);
        lemma_uses_then(
            env,
            handled,
            first,
            ref_pass::uses_from(env, t, i + 1, scopes, function, first.handled),
        );
    }
}

/// No reference stands where the file defines something, none has an empty name, and a
/// reference carries the text of its line exactly where contexts are kept. Every call names a
/// callee other than its caller. All of them stand in the file, in a line that is counted from
/// one.
pub proof fn law_references_and_calls_are_sound(
    path: Seq<char>,
    source: Seq<char>,
    language: Seq<char>,
    t: SyntaxTree,
    mode: ReferenceMode,
    with_context: bool,
)
    ensures
        ({
            let s = cpp_parser::tree_symbols(path, source, language, t, mode, with_context);
            let env = cpp_parser::reference_env(path, source, s.definitions, mode, with_context);
            &&& forall|i: int|
                0 <= i < s.references.len() ==> sound_reference(env, #[trigger] s.references[i])
            &&& forall|i: int| 0 <= i < s.calls.len() ==> sound_call(env, #[trigger] s.calls[i])
        }),
{
    let definitions = def_pass::found_in(path, source, t, Seq::empty(), None).definitions;
    let env = cpp_parser::reference_env(path, source, definitions, mode, with_context);
    lemma_uses_in(env, t, Seq::empty(), None, Set::empty());
}

/// With references switched off the file has none. With calls kept, every reference stands where
/// a call names what it calls, under that name, and no two references share a place.
pub proof fn law_reference_modes(
    path: Seq<char>,
    source: Seq<char>,
    language: Seq<char>,
    t: SyntaxTree,
    with_context: bool,
)
    ensures
        cpp_parser::tree_symbols(
            path,
            source,
            language,
            t,
            ReferenceMode::Off,
            with_context,
        ).references.len() == 0,
        ({
            let s = cpp_parser::tree_symbols(path, source, language, t, ReferenceMode::Calls, with_context);
            let called = cpp_parser::called_places(path, source, t, ReferenceMode::Calls, with_context);
            &&& called.len() == s.calls.len()
            &&& forall|i: int|
                0 <= i < s.references.len() ==> called_at(
                    s.calls,
                    called,
                    #[trigger] s.references[i],
                )
            &&& forall|i: int, j: int|
                0 <= i < j < s.references.len() ==> start_of(
                    (#[trigger] s.references[i]).location,
                ) != start_of((#[trigger] s.references[j]).location)
        }),
{
    let definitions = def_pass::found_in(path, source, t, Seq::empty(), None).definitions;
    lemma_uses_in(
        cpp_parser::reference_env(path, source, definitions, ReferenceMode::Off, with_context),
        t,
        Seq::empty(),
        None,
        Set::empty(),
    );
    lemma_uses_in(
        cpp_parser::reference_env(path, source, definitions, ReferenceMode::Calls, with_context),
        t,
        Seq::empty(),
        None,
        Set::empty(),
    );
}

/// Unless references are switched off, every call whose called name does not stand where
/// something is defined has a reference at the place of that name.
pub proof fn law_calls_are_referenced(
    path: Seq<char>,
    source: Seq<char>,
    language: Seq<char>,
    t: SyntaxTree,
    mode: ReferenceMode,
    with_context: bool,
    i: int,
)
    requires
        mode != ReferenceMode::Off,
        0 <= i < cpp_parser::tree_symbols(path, source, language, t, mode, with_context).calls.len(),
    ensures
        ({
            let s = cpp_parser::tree_symbols(path, source, language, t, mode, with_context);
            let p = cpp_parser::called_places(path, source, t, mode, with_context)[i];
            cpp_parser::places(s.definitions).contains(p) || referenced_at(s.references, p)
        }),
{
    let s = cpp_parser::tree_symbols(path, source, language, t, mode, with_context);
    let env = cpp_parser::reference_env(path, source, s.definitions, mode, with_context);
    lemma_uses_in(env, t, Seq::empty(), None, Set::empty());
    let u = ref_pass::uses_in(env, t, Seq::empty(), None, Set::empty());
    let p = u.called[i];
    if u.handled.contains(p) {
        assert(!Set::<(usize, usize)>::empty().contains(p));
    }
}

/// Whether two passes find the same calls.
spec fn uses_agree(a: Uses, b: Uses) -> bool {
    a.calls == b.calls
}

proof fn lemma_calls_in(
    a: RefEnv,
    b: RefEnv,
    t: SyntaxTree,
    scopes: Seq<ScopeView>,
    function: Option<Seq<char>>,
    ha: Set<(usize, usize)>,
    hb: Set<(usize, usize)>,
)
    requires
        a.file == b.file,
        a.source == b.source,
    ensures
        uses_agree(ref_pass::uses_in(a, t, scopes, function, ha), ref_pass::uses_in(b, t, scopes, function, hb)),
    decreases t, t.children.len() + 1,
{
    if !def_pass::is_leaf(t) {
        let s = ref_pass::scopes_below(a.source, t, scopes);
        let f = ref_pass::function_below(a.source, t, scopes, function);
        if syntax::tag(t) == NodeKind::CallExpression {
            lemma_calls_from(
                a,
                b,
                t,
                0,
                s,
                f,
                ref_pass::call_uses(a, t, function, ha).handled,
                ref_pass::call_uses(b, t, function, hb).handled,
            );
        } else {
            lemma_calls_from(a, b, t, 0, s, f, ha, hb);
        }
    }
}

proof fn lemma_calls_from(
    a: RefEnv,
    b: RefEnv,
    t: SyntaxTree,
    i: int,
    scopes: Seq<ScopeView>,
    function: Option<Seq<char>>,
    ha: Set<(usize, usize)>,
    hb: Set<(usize, usize)>,
)
    requires
        a.file == b.file,
        a.source == b.source,
    ensures
        uses_agree(ref_pass::uses_from(a, t, i, scopes, function, ha), ref_pass::uses_from(b, t, i, scopes, function, hb)),
    decreases t, t.children.len() - i,
{
    if 0 <= i < t.children.len() {
        let c = t.children[i];
        lemma_calls_in(a, b, c, scopes, function, ha, hb);
        lemma_calls_from(
            a,
            b,
            t,
            i + 1,
            scopes,
            function,
            ref_pass::uses_in(a, c, scopes, function, ha).handled,
            ref_pass::uses_in(b, c, scopes, function, hb).handled,
        );
    }
}

/// Definitions, call edges and inheritance do not depend on which references are kept.
pub proof fn law_call_graph_in_every_mode(
    path: Seq<char>,
    source: Seq<char>,
    language: Seq<char>,
    t: SyntaxTree,
    mode: ReferenceMode,
    with_context: bool,
    other_mode: ReferenceMode,
    other_context: bool,
)
    ensures
        ({
            let s = cpp_parser::tree_symbols(path, source, language, t, mode, with_context);
            let o = cpp_parser::tree_symbols(path, source, language, t, other_mode, other_context);
            s.definitions == o.definitions && s.calls == o.calls && s.inherits == o.inherits
        }),
{
    let definitions = def_pass::found_in(path, source, t, Seq::empty(), None).definitions;
    lemma_calls_in(
        cpp_parser::reference_env(path, source, definitions, mode, with_context),
        cpp_parser::reference_env(path, source, definitions, other_mode, other_context),
        t,
        Seq::empty(),
        None,
        Set::empty(),
        Set::empty(),
    );
}

/// Whether a definition has a qualified name.
pub open spec fn is_defined(definitions: Seq<DefinitionView>, name: Seq<char>) -> bool {
    exists|i: int|
        0 <= i < definitions.len() && (#[trigger] definitions[i]).qualified_name == name
}

/// Whether calls are made by the function around them or by a function among definitions.
spec fn callers_known(
    calls: Seq<CallEdgeView>,
    around: Option<Seq<char>>,
    definitions: Seq<DefinitionView>,
) -> bool {
    forall|i: int|
        0 <= i < calls.len() ==> (#[trigger] calls[i]).caller_name == def_pass::name_or_empty(
            around,
        ) || is_defined(definitions, calls[i].caller_name)
}

/// What is defined among some definitions is defined among more.
proof fn lemma_more_defined(
    a: Seq<DefinitionView>,
    b: Seq<DefinitionView>,
    all: Seq<DefinitionView>,
)
    requires
        all == a + b,
    ensures
        forall|n: Seq<char>|
            is_defined(a, n) || is_defined(b, n) ==> #[trigger] is_defined(all, n),
{
    assert forall|n: Seq<char>| is_defined(a, n) || is_defined(b, n) implies #[trigger] is_defined(
        all,
        n,
    ) by {
        if is_defined(a, n) {
            let i = choose|i: int| 0 <= i < a.len() && (#[trigger] a[i]).qualified_name == n;
            assert(all[i] == a[i]);
        } else {
            let i = choose|i: int| 0 <= i < b.len() && (#[trigger] b[i]).qualified_name == n;
            assert(all[a.len() + i] == b[i]);
        }
    }
}

proof fn lemma_callers_in(
    env: RefEnv,
    t: SyntaxTree,
    scopes: Seq<ScopeView>,
    function: Option<Seq<char>>,
    handled: Set<(usize, usize)>,
    visibility: Option<Visibility>,
)
    ensures
        callers_known(
            ref_pass::uses_in(env, t, scopes, function, handled).calls,
            function,
            def_pass::found_in(env.file, env.source, t, scopes, visibility).definitions,
        ),
    decreases t, t.children.len() + 1,
{
    if !def_pass::is_leaf(t) {
        let v = def_pass::in_force(visibility);
        let own = def_pass::own_symbols(env.file, env.source, t, scopes, v);
        let below = ref_pass::scopes_below(env.source, t, scopes);
        let f = ref_pass::function_below(env.source, t, scopes, function);
        let first = if syntax::tag(t) == NodeKind::CallExpression {
            ref_pass::call_uses(env, t, function, handled)
        } else {
            ref_pass::no_uses(handled)
        };
        let inner_visibility = match def_pass::opened(env.source, t) {
            Some((_, w)) => Some(w),
            None => def_pass::access_after(env.source, t, visibility),
        };
        lemma_callers_from(env, t, 0, below, f, first.handled, inner_visibility);
        let inner = def_pass::found_from(env.file, env.source, t, 0, below, inner_visibility);
        let all = def_pass::found_in(env.file, env.source, t, scopes, visibility).definitions;
        assert(all == own + inner.definitions);
        lemma_more_defined(own, inner.definitions, all);
        let rest = ref_pass::uses_from(env, t, 0, below, f, first.handled);
        let calls = ref_pass::uses_in(env, t, scopes, function, handled).calls;
        assert(calls == first.calls + rest.calls);
        if f != function {
            let d = own[0];
            assert(d.qualified_name == f->0);
            assert(is_defined(own, f->0));
            assert(is_defined(all, f->0));
        }
        assert forall|i: int| 0 <= i < calls.len() implies (#[trigger] calls[i]).caller_name
            == def_pass::name_or_empty(function) || is_defined(all, calls[i].caller_name) by {
            if i < first.calls.len() {
                assert(calls[i] == first.calls[i]);
            } else {
                assert(calls[i] == rest.calls[i - first.calls.len()]);
            }
        }
    }
}

proof fn lemma_callers_from(
    env: RefEnv,
    t: SyntaxTree,
    i: int,
    scopes: Seq<ScopeView>,
    function: Option<Seq<char>>,
    handled: Set<(usize, usize)>,
    visibility: Option<Visibility>,
)
    ensures
        callers_known(
            ref_pass::uses_from(env, t, i, scopes, function, handled).calls,
            function,
            def_pass::found_from(env.file, env.source, t, i, scopes, visibility).definitions,
        ),
    decreases t, t.children.len() - i,
{
    if 0 <= i < t.children.len() {
        let c = t.children[i];
        let first = ref_pass::uses_in(env, c, scopes, function, handled);
        let found = def_pass::found_in(env.file, env.source, c, scopes, visibility);
        let rest = ref_pass::uses_from(env, t, i + 1, scopes, function, first.handled);
        let later = def_pass::found_from(
            env.file,
            env.source,
            t,
            i + 1,
            scopes,
            found.visibility,
        );
        lemma_callers_in(env, c, scopes, function, handled, visibility);
        lemma_callers_from(env, t, i + 1, scopes, function, first.handled, found.visibility);
        let all = def_pass::found_from(env.file, env.source, t, i, scopes, visibility).definitions;
        assert(all == found.definitions + later.definitions);
        lemma_more_defined(found.definitions, later.definitions, all);
        let calls = ref_pass::uses_from(env, t, i, scopes, function, handled).calls;
        assert(calls == first.calls + rest.calls);
        assert forall|k: int| 0 <= k < calls.len() implies (#[trigger] calls[k]).caller_name
            == def_pass::name_or_empty(function) || is_defined(all, calls[k].caller_name) by {
            if k < first.calls.len() {
                assert(calls[k] == first.calls[k]);
            } else {
                assert(calls[k] == rest.calls[k - first.calls.len()]);
            }
        }
    }
}

/// Every call is made by a function that the file defines, under its qualified name, or stands
/// outside of all functions and names no caller.
pub proof fn law_callers_are_defined(
    path: Seq<char>,
    source: Seq<char>,
    language: Seq<char>,
    t: SyntaxTree,
    mode: ReferenceMode,
    with_context: bool,
    i: int,
)
    requires
        0 <= i < cpp_parser::tree_symbols(path, source, language, t, mode, with_context).calls.len(),
    ensures
        ({
            let s = cpp_parser::tree_symbols(path, source, language, t, mode, with_context);
            s.calls[i].caller_name.len() == 0 || is_defined(s.definitions, s.calls[i].caller_name)
        }),
{
    let s = cpp_parser::tree_symbols(path, source, language, t, mode, with_context);
    let env = cpp_parser::reference_env(path, source, s.definitions, mode, with_context);
    lemma_callers_in(env, t, Seq::empty(), None, Set::empty(), None);
    assert(s.calls[i].caller_name == def_pass::name_or_empty(None) || is_defined(
        s.definitions,
        s.calls[i].caller_name,
    ));
}

/// What a parser makes of a text, whatever parser and text: the symbols are those of the file.
/// No reference stands where something is defined, and none is resolved yet. Every call names a
/// callee other than its caller. Everything stands in the file, in a line that is counted from
/// one.
pub proof fn law_parsed_symbols_are_sound(parser: CppParser, path: Seq<char>, source: Seq<char>)
    ensures
        parser.parsed(path, source) matches Ok(s) ==> {
            &&& s.file == path
            &&& s.language == parser.language_name()
            &&& forall|i: int, j: int|
                0 <= i < s.references.len() && 0 <= j < s.definitions.len() ==> start_of(
                    (#[trigger] s.references[i]).location,
                ) != start_of((#[trigger] s.definitions[j]).location)
            &&& forall|i: int|
                0 <= i < s.definitions.len() ==> (#[trigger] s.definitions[i]).location.file == path
                    && s.definitions[i].location.line >= 1 && s.definitions[i].id is None
            &&& forall|i: int|
                0 <= i < s.references.len() ==> (#[trigger] s.references[i]).location.file == path
                    && s.references[i].location.line >= 1 && s.references[i].def_id is None
            &&& forall|i: int|
                0 <= i < s.calls.len() ==> (#[trigger] s.calls[i]).location.file == path
                    && s.calls[i].location.line >= 1 && s.calls[i].callee_name.len() > 0
                    && s.calls[i].callee_name != s.calls[i].caller_name
            &&& forall|i: int|
                0 <= i < s.inherits.len() ==> (#[trigger] s.inherits[i]).location.file == path
                    && s.inherits[i].location.line >= 1 && s.inherits[i].base_name.len() > 0
        },
{
    if let Ok(Some(t)) = syntax::syntax_of(source, parser.grammar == Language::Cpp) {
        let language = parser.grammar.name();
        let mode = parser.reference_mode;
        let with_context = parser.include_reference_context;
        let s = cpp_parser::tree_symbols(path, source, language, t, mode, with_context);
        let env = cpp_parser::reference_env(path, source, s.definitions, mode, with_context);
        law_definitions_are_qualified(path, source, language, t, mode, with_context);
        law_references_and_calls_are_sound(path, source, language, t, mode, with_context);
        assert forall|i: int, j: int|
            0 <= i < s.references.len() && 0 <= j < s.definitions.len() implies start_of(
            (#[trigger] s.references[i]).location,
        ) != start_of((#[trigger] s.definitions[j]).location) by {
            assert(sound_reference(env, s.references[i]));
            let p = start_of(s.definitions[j].location);
            assert(cpp_parser::places(s.definitions).contains(p));
        }
        assert forall|i: int| 0 <= i < s.definitions.len() implies well_named(
            path,
            #[trigger] s.definitions[i],
        ) by {}
        assert forall|i: int| 0 <= i < s.references.len() implies sound_reference(
            env,
            #[trigger] s.references[i],
        ) by {}
        assert forall|i: int| 0 <= i < s.calls.len() implies sound_call(
            env,
            #[trigger] s.calls[i],
        ) by {}
        assert forall|i: int| 0 <= i < s.inherits.len() implies named_base(
            path,
            #[trigger] s.inherits[i],
        ) by {}
    }
}

} // verus!
