//! What every node of a syntax tree contributes to the symbols of its file.
use crate::cpp_parser;
use crate::def_pass;
use crate::language::ReferenceMode;
use crate::names;
use crate::naming_laws::reads_before;
use crate::parser_laws;
use crate::ref_pass::{RefEnv, Uses};
use crate::ref_pass;
use crate::scope::ScopeView;
use crate::scope;
use crate::syntax::{FieldName, NodeKind, SyntaxTree};
use crate::syntax;
use crate::text;
use crate::types::{
    CallEdgeView, DefinitionView, InheritEdgeView, LocationView, ReferenceView, SymbolKind,
    Visibility,
};
use vstd::prelude::*;
use vstd::utf8::*;

verus! {

/// Whether a kind of node is an identifier, below which nothing is read.
pub open spec fn is_name(k: NodeKind) -> bool {
    ||| k == NodeKind::Identifier
    ||| k == NodeKind::TypeIdentifier
    ||| k == NodeKind::FieldIdentifier
    ||| k == NodeKind::NamespaceIdentifier
}

/// The node at the end of a path of child positions. No path leads on from an identifier.
pub open spec fn node_at(t: SyntaxTree, path: Seq<int>) -> Option<SyntaxTree>
    decreases path.len(),
{
    if path.len() == 0 {
        Some(t)
    } else if !is_name(syntax::tag(t)) && 0 <= path[0] < t.children.len() {
        node_at(t.children[path[0]], path.skip(1))
    } else {
        None
    }
}

/// Whether the child at a position is the first of one of two kinds.
pub open spec fn is_first_of(t: SyntaxTree, a: NodeKind, b: NodeKind, j: int) -> bool {
    &&& 0 <= j < t.children.len()
    &&& syntax::tag(t.children[j]) == a || syntax::tag(t.children[j]) == b
    &&& forall|i: int|
        0 <= i < j ==> syntax::tag(#[trigger] t.children[i]) != a && syntax::tag(t.children[i]) != b
}

/// Whether a node is written with a name: the text of its `name` field, where it has one with a
/// text; else the text of its first child of one of two kinds.
pub open spec fn is_written(
    source: Seq<char>,
    t: SyntaxTree,
    a: NodeKind,
    b: NodeKind,
    name: Seq<char>,
) -> bool {
    if exists|j: int| #[trigger]
        is_field(t, FieldName::Name, j) && syntax::text_of(source, t.children[j]).len() > 0 {
        exists|j: int| #[trigger]
            is_field(t, FieldName::Name, j) && syntax::text_of(source, t.children[j]) == name
    } else {
        exists|j: int| #[trigger]
            is_first_of(t, a, b, j) && syntax::text_of(source, t.children[j]) == name
    }
}

/// Whether a node opens a scope of a name: a namespace, or a class, struct, union or enum.
pub open spec fn opens(source: Seq<char>, t: SyntaxTree, name: Seq<char>) -> bool {
    match syntax::tag(t) {
        NodeKind::NamespaceDefinition => is_written(
            source,
            t,
            NodeKind::NestedNamespaceSpecifier,
            NodeKind::QualifiedIdentifier,
            name,
        ),
        NodeKind::ClassSpecifier
        | NodeKind::StructSpecifier
        | NodeKind::UnionSpecifier
        | NodeKind::EnumSpecifier => is_written(
            source,
            t,
            NodeKind::TypeIdentifier,
            NodeKind::Identifier,
            name,
        ),
        _ => false,
    }
}

/// The name of the scope that a node opens, empty where it opens none or one without a name.
pub open spec fn opened_name(source: Seq<char>, t: SyntaxTree) -> Seq<char> {
    if exists|name: Seq<char>| opens(source, t, name) {
        choose|name: Seq<char>| opens(source, t, name)
    } else {
        Seq::empty()
    }
}

/// The name that a node is written with.
proof fn lemma_written(source: Seq<char>, t: SyntaxTree, a: NodeKind, b: NodeKind)
    ensures
        forall|name: Seq<char>| #[trigger]
            is_written(source, t, a, b, name) <==> names::name_or_child(source, t, a, b) == Some(
                name,
            ),
{
    lemma_field(t, FieldName::Name, 0);
    lemma_first_of(t, a, b, 0);
    if let Some(n) = syntax::field_child(t, FieldName::Name) {
        assert(is_field(t, FieldName::Name, syntax::field_from(t, FieldName::Name, 0)));
    }
    if let Some(n) = syntax::child_at(t, names::either_from(t, a, b, 0)) {
        assert(is_first_of(t, a, b, names::either_from(t, a, b, 0)));
    }
}

/// The first child of one of two kinds.
proof fn lemma_first_of(t: SyntaxTree, a: NodeKind, b: NodeKind, i: int)
    requires
        0 <= i <= t.children.len(),
        forall|k: int|
            0 <= k < i ==> syntax::tag(#[trigger] t.children[k]) != a && syntax::tag(t.children[k])
                != b,
    ensures
        ({
            let j = names::either_from(t, a, b, i);
            &&& i <= j <= t.children.len()
            &&& j < t.children.len() ==> is_first_of(t, a, b, j)
            &&& forall|k: int| is_first_of(t, a, b, k) ==> k == j
        }),
    decreases t.children.len() - i,
{
    if i < t.children.len() && syntax::tag(t.children[i]) != a && syntax::tag(t.children[i]) != b {
        lemma_first_of(t, a, b, i + 1);
    }
}

/// The scope that a node opens.
proof fn lemma_opened(source: Seq<char>, t: SyntaxTree)
    ensures
        forall|name: Seq<char>| #[trigger]
            opens(source, t, name) ==> (def_pass::opened(source, t) matches Some((s, _)) && s.name
                == name),
        def_pass::opened(source, t) matches Some((s, _)) ==> s.name == opened_name(source, t),
        def_pass::opened(source, t) is None ==> opened_name(source, t).len() == 0,
{
    lemma_written(
        source,
        t,
        NodeKind::NestedNamespaceSpecifier,
        NodeKind::QualifiedIdentifier,
    );
    lemma_written(source, t, NodeKind::TypeIdentifier, NodeKind::Identifier);
    if let Some((s, _)) = def_pass::opened(source, t) {
        let written = if syntax::tag(t) == NodeKind::NamespaceDefinition {
            names::namespace_name(source, t)
        } else {
            names::typename(source, t)
        };
        match written {
            Some(name) => {
                assert(opens(source, t, name));
            },
            None => {
                assert forall|name: Seq<char>| !opens(source, t, name) by {}
            },
        }
    }
}

/// The names of the scopes around the node at a path, outermost first.
pub open spec fn names_around(source: Seq<char>, t: SyntaxTree, path: Seq<int>) -> Seq<Seq<char>>
    decreases path.len(),
{
    if path.len() == 0 {
        Seq::empty()
    } else {
        let outer = names_around(source, t, path.drop_last());
        match node_at(t, path.drop_last()) {
            Some(p) if opened_name(source, p).len() > 0 => outer.push(opened_name(source, p)),
            _ => outer,
        }
    }
}

/// A name with the scopes around it and the qualifier that it is written with.
pub open spec fn full_name(
    around: Seq<Seq<char>>,
    qualifier: Option<Seq<char>>,
    name: Seq<char>,
) -> Seq<char> {
    match qualifier {
        Some(q) if q.len() > 0 => text::join(around.push(q).push(name), "::"@),
        _ => text::join(around.push(name), "::"@),
    }
}

/// The full name of the innermost function definition above the node at a path, empty where it
/// stands outside of all functions.
pub open spec fn function_around(source: Seq<char>, t: SyntaxTree, path: Seq<int>) -> Seq<char>
    decreases path.len(),
{
    if path.len() == 0 {
        Seq::empty()
    } else {
        let up = path.drop_last();
        let own = match node_at(t, up) {
            Some(p) => if syntax::tag(p) == NodeKind::FunctionDefinition {
                names::function_name(source, p)
            } else {
                None
            },
            None => None,
        };
        match own {
            Some((q, n)) => full_name(names_around(source, t, up), q, n),
            None => function_around(source, t, up),
        }
    }
}

/// The scopes around the node at a path, as the passes know them.
spec fn scopes_at(
    source: Seq<char>,
    t: SyntaxTree,
    path: Seq<int>,
    scopes: Seq<ScopeView>,
) -> Seq<ScopeView>
    decreases path.len(),
{
    if path.len() == 0 {
        scopes
    } else {
        scopes_at(
            source,
            t.children[path[0]],
            path.skip(1),
            ref_pass::scopes_below(source, t, scopes),
        )
    }
}

/// The function around the node at a path, as the pass knows it.
spec fn function_at(
    source: Seq<char>,
    t: SyntaxTree,
    path: Seq<int>,
    scopes: Seq<ScopeView>,
    function: Option<Seq<char>>,
) -> Option<Seq<char>>
    decreases path.len(),
{
    if path.len() == 0 {
        function
    } else {
        function_at(
            source,
            t.children[path[0]],
            path.skip(1),
            ref_pass::scopes_below(source, t, scopes),
            ref_pass::function_below(source, t, scopes, function),
        )
    }
}

/// One step down adds what the node above opens.
proof fn lemma_step(
    source: Seq<char>,
    t: SyntaxTree,
    path: Seq<int>,
    scopes: Seq<ScopeView>,
    function: Option<Seq<char>>,
)
    requires
        path.len() > 0,
        node_at(t, path) is Some,
    ensures
        node_at(t, path.drop_last()) is Some,
        !is_name(syntax::tag(node_at(t, path.drop_last())->0)),
        0 <= path.last() < node_at(t, path.drop_last())->0.children.len(),
        node_at(t, path) == Some(node_at(t, path.drop_last())->0.children[path.last()]),
        scopes_at(source, t, path, scopes) == ref_pass::scopes_below(
            source,
            node_at(t, path.drop_last())->0,
            scopes_at(source, t, path.drop_last(), scopes),
        ),
        function_at(source, t, path, scopes, function) == ref_pass::function_below(
            source,
            node_at(t, path.drop_last())->0,
            scopes_at(source, t, path.drop_last(), scopes),
            function_at(source, t, path.drop_last(), scopes, function),
        ),
    decreases path.len(),
{
    reveal_with_fuel(node_at, 2);
    reveal_with_fuel(scopes_at, 2);
    reveal_with_fuel(function_at, 2);
    let up = path.drop_last();
    if path.len() > 1 {
        let rest = path.skip(1);
        lemma_step(
            source,
            t.children[path[0]],
            rest,
            ref_pass::scopes_below(source, t, scopes),
            ref_pass::function_below(source, t, scopes, function),
        );
        assert(up.skip(1) =~= rest.drop_last());
        assert(up[0] == path[0]);
        assert(rest.last() == path.last());
    } else {
        assert(up =~= Seq::<int>::empty());
    }
}

/// What the passes know of the scopes and the function around a node is what stands above it.
proof fn lemma_around(source: Seq<char>, t: SyntaxTree, path: Seq<int>)
    requires
        node_at(t, path) is Some,
    ensures
        scope::scope_names(scopes_at(source, t, path, Seq::empty())) == names_around(
            source,
            t,
            path,
        ),
        def_pass::name_or_empty(function_at(source, t, path, Seq::empty(), None))
            == function_around(source, t, path),
    decreases path.len(),
{
    if path.len() > 0 {
        let up = path.drop_last();
        lemma_step(source, t, path, Seq::empty(), None);
        lemma_around(source, t, up);
        let p = node_at(t, up)->0;
        let scopes = scopes_at(source, t, up, Seq::empty());
        lemma_opened(source, p);
        if let Some((s, _)) = def_pass::opened(source, p) {
            assert(scopes.push(s).drop_last() =~= scopes);
        }
        if syntax::tag(p) == NodeKind::FunctionDefinition {
            if let Some((q, n)) = names::function_name(source, p) {
                lemma_full_name(scopes, q, n);
            }
        }
    }
}

/// The name below a qualified parent is the full name.
proof fn lemma_full_name(scopes: Seq<ScopeView>, q: Option<Seq<char>>, n: Seq<char>)
    ensures
        scope::name_in(scope::qualified_parent(scopes, q), n) == full_name(
            scope::scope_names(scopes),
            q,
            n,
        ),
{
    reveal_with_fuel(text::join, 3);
    let around = scope::scope_names(scopes);
    assert(around.push(n).drop_last() =~= around);
    if let Some(q) = q {
        assert(around.push(q).drop_last() =~= around);
        assert(around.push(q).push(n).drop_last() =~= around.push(q));
    }
}

/// Where a node stands in its file. Lines count from one, and rows from zero.
pub open spec fn location_in(file: Seq<char>, t: SyntaxTree) -> LocationView {
    LocationView {
        file,
        line: line_in(t.start_row),
        column: t.start_column,
        end_line: line_in(t.end_row),
        end_column: t.end_column,
    }
}

/// The line of a row. No line is behind the largest number.
pub open spec fn line_in(row: usize) -> usize {
    if row < usize::MAX {
        (row + 1) as usize
    } else {
        usize::MAX
    }
}

/// Whether the child at a position is the one that a node finds under a field: the first that has
/// the field.
pub open spec fn is_field(t: SyntaxTree, field: FieldName, j: int) -> bool {
    &&& 0 <= j < t.children.len()
    &&& t.children[j].roles.has(field)
    &&& forall|i: int| 0 <= i < j ==> !(#[trigger] t.children[i]).roles.has(field)
}

/// What a node finds under a field.
pub proof fn lemma_field(t: SyntaxTree, field: FieldName, i: int)
    requires
        0 <= i <= t.children.len(),
        forall|k: int| 0 <= k < i ==> !(#[trigger] t.children[k]).roles.has(field),
    ensures
        ({
            let j = syntax::field_from(t, field, i);
            &&& i <= j <= t.children.len()
            &&& j < t.children.len() ==> is_field(t, field, j)
            &&& j == t.children.len() ==> forall|k: int| !is_field(t, field, k)
            &&& forall|k: int| is_field(t, field, k) ==> k == j
        }),
    decreases t.children.len() - i,
{
    if i < t.children.len() && !t.children[i].roles.has(field) {
        lemma_field(t, field, i + 1);
    }
}

/// Whether a callee calls a name: an identifier its text; a member of an object the text of the
/// member; a qualified name the text behind its last separator.
pub open spec fn calls_name(source: Seq<char>, callee: SyntaxTree, name: Seq<char>) -> bool {
    match syntax::tag(callee) {
        NodeKind::Identifier | NodeKind::TypeIdentifier | NodeKind::FieldIdentifier => name
            == syntax::text_of(source, callee),
        NodeKind::FieldExpression => exists|j: int| #[trigger]
            is_field(callee, FieldName::Member, j) && name == syntax::text_of(
                source,
                callee.children[j],
            ),
        NodeKind::QualifiedIdentifier => name == text::last_part(syntax::text_of(source, callee)),
        _ => false,
    }
}

/// The name that a call calls is the one that its callee calls.
proof fn lemma_callee_name(source: Seq<char>, callee: SyntaxTree, name: Seq<char>)
    requires
        name.len() > 0,
    ensures
        calls_name(source, callee, name) <==> ref_pass::callee_name(source, callee) == Some(name),
{
    lemma_field(callee, FieldName::Member, 0);
}

/// The node in which a qualified name ends: that of its `name` field, where it has one.
pub open spec fn name_end(t: SyntaxTree) -> SyntaxTree
    decreases t,
{
    if syntax::tag(t) == NodeKind::QualifiedIdentifier && exists|j: int| #[trigger]
        is_field(t, FieldName::Name, j) {
        let j = choose|j: int| #[trigger] is_field(t, FieldName::Name, j);
        if decreases_to!(t => t.children[j]) {
            name_end(t.children[j])
        } else {
            t
        }
    } else {
        t
    }
}

/// The node that names what a call calls: the member of an object, else the callee, each where
/// its name ends.
pub open spec fn called_name_node(callee: SyntaxTree) -> SyntaxTree {
    if syntax::tag(callee) == NodeKind::FieldExpression {
        if exists|j: int| #[trigger] is_field(callee, FieldName::Member, j) {
            name_end(
                callee.children[choose|j: int| #[trigger] is_field(callee, FieldName::Member, j)],
            )
        } else {
            callee
        }
    } else {
        name_end(callee)
    }
}

/// The node in which a qualified name ends.
proof fn lemma_name_end(t: SyntaxTree)
    ensures
        name_end(t) == ref_pass::last_name_node(t),
    decreases t,
{
    lemma_field(t, FieldName::Name, 0);
    if syntax::tag(t) == NodeKind::QualifiedIdentifier {
        if let Some(c) = syntax::field_child(t, FieldName::Name) {
            let j = syntax::field_from(t, FieldName::Name, 0);
            ref_pass::lemma_name_child(t);
            assert(is_field(t, FieldName::Name, j));
            assert(decreases_to!(t => t.children[j]));
            lemma_name_end(c);
        }
    }
}

/// The node that names what a call calls.
proof fn lemma_called_name_node(callee: SyntaxTree)
    ensures
        called_name_node(callee) == ref_pass::called_node(callee),
{
    lemma_field(callee, FieldName::Member, 0);
    lemma_name_end(callee);
    if let Some(f) = syntax::field_child(callee, FieldName::Member) {
        assert(is_field(
            callee,
            FieldName::Member,
            syntax::field_from(callee, FieldName::Member, 0),
        ));
        lemma_name_end(f);
    }
}

/// A call edge of a walk over a tree.
proof fn lemma_call_in(
    env: RefEnv,
    t: SyntaxTree,
    path: Seq<int>,
    scopes: Seq<ScopeView>,
    function: Option<Seq<char>>,
    handled: Set<(usize, usize)>,
    name: Seq<char>,
)
    requires
        node_at(t, path) is Some,
        syntax::tag(node_at(t, path)->0) == NodeKind::CallExpression,
        node_at(t, path)->0.children.len() > 0,
        ref_pass::callee_name(env.source, node_at(t, path)->0.children[0]) == Some(name),
        name.len() > 0,
        name != def_pass::name_or_empty(function_at(env.source, t, path, scopes, function)),
    ensures
        ref_pass::uses_in(env, t, scopes, function, handled).calls.contains(
            (CallEdgeView {
                caller_name: def_pass::name_or_empty(
                    function_at(env.source, t, path, scopes, function),
                ),
                callee_name: name,
                location: def_pass::place(env.file, node_at(t, path)->0.children[0]),
            }),
        ),
    decreases path.len(), t.children.len() + 1,
{
    let own = if syntax::tag(t) == NodeKind::CallExpression {
        ref_pass::call_uses(env, t, function, handled)
    } else {
        ref_pass::no_uses(handled)
    };
    let s = ref_pass::scopes_below(env.source, t, scopes);
    let f = ref_pass::function_below(env.source, t, scopes, function);
    let inner = ref_pass::uses_from(env, t, 0, s, f, own.handled);
    if path.len() == 0 {
        lemma_contained(own.calls, inner.calls, own.calls[0]);
        assert(own.calls.contains(own.calls[0]));
    } else {
        let c = CallEdgeView {
            caller_name: def_pass::name_or_empty(
                function_at(env.source, t, path, scopes, function),
            ),
            callee_name: name,
            location: def_pass::place(env.file, node_at(t, path)->0.children[0]),
        };
        lemma_call_from(env, t, 0, path, s, f, own.handled, name);
        lemma_contained(own.calls, inner.calls, c);
    }
}

/// A call edge of a walk over the children of a tree.
proof fn lemma_call_from(
    env: RefEnv,
    t: SyntaxTree,
    i: int,
    path: Seq<int>,
    scopes: Seq<ScopeView>,
    function: Option<Seq<char>>,
    handled: Set<(usize, usize)>,
    name: Seq<char>,
)
    requires
        path.len() > 0,
        0 <= i <= path[0] < t.children.len(),
        ({
            let c = t.children[path[0]];
            let rest = path.skip(1);
            &&& node_at(c, rest) is Some
            &&& syntax::tag(node_at(c, rest)->0) == NodeKind::CallExpression
            &&& node_at(c, rest)->0.children.len() > 0
            &&& ref_pass::callee_name(env.source, node_at(c, rest)->0.children[0]) == Some(name)
            &&& name.len() > 0
            &&& name != def_pass::name_or_empty(
                function_at(env.source, c, rest, scopes, function),
            )
        }),
    ensures
        ref_pass::uses_from(env, t, i, scopes, function, handled).calls.contains(
            (CallEdgeView {
                caller_name: def_pass::name_or_empty(
                    function_at(env.source, t.children[path[0]], path.skip(1), scopes, function),
                ),
                callee_name: name,
                location: def_pass::place(
                    env.file,
                    node_at(t.children[path[0]], path.skip(1))->0.children[0],
                ),
            }),
        ),
    decreases path.len(), t.children.len() - i,
{
    let c = t.children[path[0]];
    let rest = path.skip(1);
    let edge = CallEdgeView {
        caller_name: def_pass::name_or_empty(function_at(env.source, c, rest, scopes, function)),
        callee_name: name,
        location: def_pass::place(env.file, node_at(c, rest)->0.children[0]),
    };
    let first = ref_pass::uses_in(env, t.children[i], scopes, function, handled);
    let later = ref_pass::uses_from(env, t, i + 1, scopes, function, first.handled);
    if i == path[0] {
        lemma_call_in(env, c, rest, scopes, function, handled, name);
    } else {
        lemma_call_from(env, t, i + 1, path, scopes, function, first.handled, name);
    }
    lemma_contained(first.calls, later.calls, edge);
}

/// What one part holds, both together hold.
proof fn lemma_contained<T>(a: Seq<T>, b: Seq<T>, x: T)
    ensures
        a.contains(x) ==> (a + b).contains(x),
        b.contains(x) ==> (a + b).contains(x),
{
    if a.contains(x) {
        let i = choose|i: int| 0 <= i < a.len() && a[i] == x;
        assert((a + b)[i] == x);
    }
    if b.contains(x) {
        let i = choose|i: int| 0 <= i < b.len() && b[i] == x;
        assert((a + b)[a.len() + i] == x);
    }
}

/// Every call of a file is in its symbols, wherever it stands: below a node of any kind but an
/// identifier, in the arguments of another call or outside of all functions. The edge names the
/// innermost function around the call and what it calls, and stands where the callee stands. Only
/// a call without a name, or of the function's own full name, has none.
pub proof fn law_every_call_is_recorded(
    file: Seq<char>,
    source: Seq<char>,
    language: Seq<char>,
    t: SyntaxTree,
    mode: ReferenceMode,
    with_context: bool,
    path: Seq<int>,
    name: Seq<char>,
)
    requires
        node_at(t, path) is Some,
        syntax::tag(node_at(t, path)->0) == NodeKind::CallExpression,
        node_at(t, path)->0.children.len() > 0,
        calls_name(source, node_at(t, path)->0.children[0], name),
        name.len() > 0,
        name != function_around(source, t, path),
    ensures
        cpp_parser::tree_symbols(file, source, language, t, mode, with_context).calls.contains(
            (CallEdgeView {
                caller_name: function_around(source, t, path),
                callee_name: name,
                location: location_in(file, node_at(t, path)->0.children[0]),
            }),
        ),
{
    let definitions = def_pass::found_in(file, source, t, Seq::empty(), None).definitions;
    let env = cpp_parser::reference_env(file, source, definitions, mode, with_context);
    lemma_callee_name(source, node_at(t, path)->0.children[0], name);
    lemma_around(source, t, path);
    lemma_call_in(env, t, path, Seq::empty(), None, Set::empty(), name);
}

/// Where a call edge of a walk over a tree comes from.
proof fn lemma_call_source(
    env: RefEnv,
    t: SyntaxTree,
    scopes: Seq<ScopeView>,
    function: Option<Seq<char>>,
    handled: Set<(usize, usize)>,
    k: int,
) -> (path: Seq<int>)
    requires
        0 <= k < ref_pass::uses_in(env, t, scopes, function, handled).calls.len(),
    ensures
        ({
            let edge = ref_pass::uses_in(env, t, scopes, function, handled).calls[k];
            let around = function_at(env.source, t, path, scopes, function);
            &&& node_at(t, path) is Some
            &&& syntax::tag(node_at(t, path)->0) == NodeKind::CallExpression
            &&& node_at(t, path)->0.children.len() > 0
            &&& ref_pass::callee_name(env.source, node_at(t, path)->0.children[0]) == Some(
                edge.callee_name,
            )
            &&& edge.callee_name.len() > 0
            &&& edge.callee_name != edge.caller_name
            &&& edge.caller_name == def_pass::name_or_empty(around)
            &&& edge.location == def_pass::place(env.file, node_at(t, path)->0.children[0])
        }),
    decreases t, t.children.len() + 1,
{
    let own = if syntax::tag(t) == NodeKind::CallExpression {
        ref_pass::call_uses(env, t, function, handled)
    } else {
        ref_pass::no_uses(handled)
    };
    let s = ref_pass::scopes_below(env.source, t, scopes);
    let f = ref_pass::function_below(env.source, t, scopes, function);
    if k < own.calls.len() {
        Seq::empty()
    } else {
        lemma_call_source_from(env, t, 0, s, f, own.handled, k - own.calls.len())
    }
}

/// Where a call edge of a walk over the children of a tree comes from.
proof fn lemma_call_source_from(
    env: RefEnv,
    t: SyntaxTree,
    i: int,
    scopes: Seq<ScopeView>,
    function: Option<Seq<char>>,
    handled: Set<(usize, usize)>,
    k: int,
) -> (path: Seq<int>)
    requires
        !is_name(syntax::tag(t)),
        0 <= i,
        0 <= k < ref_pass::uses_from(env, t, i, scopes, function, handled).calls.len(),
    ensures
        path.len() > 0,
        i <= path[0] < t.children.len(),
        ({
            let edge = ref_pass::uses_from(env, t, i, scopes, function, handled).calls[k];
            let c = t.children[path[0]];
            let rest = path.skip(1);
            let around = function_at(env.source, c, rest, scopes, function);
            &&& node_at(c, rest) is Some
            &&& syntax::tag(node_at(c, rest)->0) == NodeKind::CallExpression
            &&& node_at(c, rest)->0.children.len() > 0
            &&& ref_pass::callee_name(env.source, node_at(c, rest)->0.children[0]) == Some(
                edge.callee_name,
            )
            &&& edge.callee_name.len() > 0
            &&& edge.callee_name != edge.caller_name
            &&& edge.caller_name == def_pass::name_or_empty(around)
            &&& edge.location == def_pass::place(env.file, node_at(c, rest)->0.children[0])
        }),
    decreases t, t.children.len() - i,
{
    let first = ref_pass::uses_in(env, t.children[i], scopes, function, handled);
    if k < first.calls.len() {
        let rest = lemma_call_source(env, t.children[i], scopes, function, handled, k);
        let path = seq![i] + rest;
        assert(path.skip(1) =~= rest);
        path
    } else {
        lemma_call_source_from(
            env,
            t,
            i + 1,
            scopes,
            function,
            first.handled,
            k - first.calls.len(),
        )
    }
}

/// Every call edge of a file comes from a call: some path of child positions leads to a call
/// whose callee calls the name and stands where the edge stands, and the edge names the innermost
/// function around it.
pub proof fn law_every_edge_is_a_call(
    file: Seq<char>,
    source: Seq<char>,
    language: Seq<char>,
    t: SyntaxTree,
    mode: ReferenceMode,
    with_context: bool,
    k: int,
)
    requires
        0 <= k < cpp_parser::tree_symbols(file, source, language, t, mode, with_context).calls.len(),
    ensures
        ({
            let edge = cpp_parser::tree_symbols(file, source, language, t, mode, with_context).calls[k];
            exists|path: Seq<int>| #[trigger]
                node_at(t, path) is Some && {
                    let n = node_at(t, path)->0;
                    &&& syntax::tag(n) == NodeKind::CallExpression
                    &&& n.children.len() > 0
                    &&& calls_name(source, n.children[0], edge.callee_name)
                    &&& edge.location == location_in(file, n.children[0])
                    &&& edge.caller_name == function_around(source, t, path)
                    &&& edge.callee_name.len() > 0
                    &&& edge.callee_name != edge.caller_name
                }
        }),
{
    let definitions = def_pass::found_in(file, source, t, Seq::empty(), None).definitions;
    let env = cpp_parser::reference_env(file, source, definitions, mode, with_context);
    let edge = cpp_parser::tree_symbols(file, source, language, t, mode, with_context).calls[k];
    let path = lemma_call_source(env, t, Seq::empty(), None, Set::empty(), k);
    lemma_around(source, t, path);
    lemma_callee_name(source, node_at(t, path)->0.children[0], edge.callee_name);
    assert(node_at(t, path) is Some);
}

/// Whether a reference stands at the line and column at which a node starts.
pub open spec fn is_referenced(references: Seq<ReferenceView>, n: SyntaxTree) -> bool {
    exists|j: int|
        0 <= j < references.len() && (#[trigger] references[j]).location.line == line_in(
            n.start_row,
        ) && references[j].location.column == n.start_column
}

/// Whether a definition stands at the line and column at which a node starts.
pub open spec fn is_defined_at(definitions: Seq<DefinitionView>, n: SyntaxTree) -> bool {
    exists|j: int|
        0 <= j < definitions.len() && (#[trigger] definitions[j]).location.line == line_in(
            n.start_row,
        ) && definitions[j].location.column == n.start_column
}

/// What a place that is handled tells of the references.
proof fn lemma_handled(env: RefEnv, before: Set<(usize, usize)>, u: Uses, n: SyntaxTree)
    requires
        parser_laws::uses_ok(env, before, u),
        u.handled.contains(ref_pass::spot(n)),
    ensures
        before.contains(ref_pass::spot(n)) || is_referenced(u.references, n),
{
    if !before.contains(ref_pass::spot(n)) {
        assert(parser_laws::referenced_at(u.references, ref_pass::spot(n)));
        let j = choose|j: int|
            0 <= j < u.references.len() && parser_laws::start_of(
                (#[trigger] u.references[j]).location,
            ) == ref_pass::spot(n);
        assert(u.references[j].location.line == line_in(n.start_row));
    }
}

/// A reference of one part is one of both.
proof fn lemma_referenced(a: Seq<ReferenceView>, b: Seq<ReferenceView>, n: SyntaxTree)
    ensures
        is_referenced(a, n) || is_referenced(b, n) ==> is_referenced(a + b, n),
{
    if is_referenced(a, n) {
        let j = choose|j: int|
            0 <= j < a.len() && (#[trigger] a[j]).location.line == line_in(n.start_row)
                && a[j].location.column == n.start_column;
        assert((a + b)[j] == a[j]);
    } else if is_referenced(b, n) {
        let j = choose|j: int|
            0 <= j < b.len() && (#[trigger] b[j]).location.line == line_in(n.start_row)
                && b[j].location.column == n.start_column;
        assert((a + b)[a.len() + j] == b[j]);
    }
}

/// An identifier in a walk over a tree that keeps all references.
proof fn lemma_leaf_in(
    env: RefEnv,
    t: SyntaxTree,
    path: Seq<int>,
    scopes: Seq<ScopeView>,
    function: Option<Seq<char>>,
    handled: Set<(usize, usize)>,
)
    requires
        env.mode == ReferenceMode::All,
        node_at(t, path) is Some,
        is_name(syntax::tag(node_at(t, path)->0)),
        syntax::text_of(env.source, node_at(t, path)->0).len() > 0,
        encode_utf8(syntax::text_of(env.source, node_at(t, path)->0)).len() <= 256,
        !env.defined.contains(ref_pass::spot(node_at(t, path)->0)),
    ensures
        handled.contains(ref_pass::spot(node_at(t, path)->0)) || is_referenced(
            ref_pass::uses_in(env, t, scopes, function, handled).references,
            node_at(t, path)->0,
        ),
    decreases path.len(), t.children.len() + 1,
{
    let n = node_at(t, path)->0;
    let u = ref_pass::uses_in(env, t, scopes, function, handled);
    if path.len() == 0 {
        if !handled.contains(ref_pass::spot(n)) {
            assert(u.references[0].location.line == line_in(n.start_row));
        }
    } else {
        let own = if syntax::tag(t) == NodeKind::CallExpression {
            ref_pass::call_uses(env, t, function, handled)
        } else {
            ref_pass::no_uses(handled)
        };
        let s = ref_pass::scopes_below(env.source, t, scopes);
        let f = ref_pass::function_below(env.source, t, scopes, function);
        let inner = ref_pass::uses_from(env, t, 0, s, f, own.handled);
        lemma_leaf_from(env, t, 0, path, s, f, own.handled);
        if own.handled.contains(ref_pass::spot(n)) && !handled.contains(ref_pass::spot(n)) {
            assert(own.references[0].location.line == line_in(n.start_row));
            assert(is_referenced(own.references, n));
        }
        lemma_referenced(own.references, inner.references, n);
    }
}

/// An identifier in a walk over the children of a tree.
proof fn lemma_leaf_from(
    env: RefEnv,
    t: SyntaxTree,
    i: int,
    path: Seq<int>,
    scopes: Seq<ScopeView>,
    function: Option<Seq<char>>,
    handled: Set<(usize, usize)>,
)
    requires
        env.mode == ReferenceMode::All,
        path.len() > 0,
        0 <= i <= path[0] < t.children.len(),
        ({
            let c = t.children[path[0]];
            let rest = path.skip(1);
            &&& node_at(c, rest) is Some
            &&& is_name(syntax::tag(node_at(c, rest)->0))
            &&& syntax::text_of(env.source, node_at(c, rest)->0).len() > 0
            &&& encode_utf8(syntax::text_of(env.source, node_at(c, rest)->0)).len() <= 256
            &&& !env.defined.contains(ref_pass::spot(node_at(c, rest)->0))
        }),
    ensures
        ({
            let n = node_at(t.children[path[0]], path.skip(1))->0;
            handled.contains(ref_pass::spot(n)) || is_referenced(
                ref_pass::uses_from(env, t, i, scopes, function, handled).references,
                n,
            )
        }),
    decreases path.len(), t.children.len() - i,
{
    let n = node_at(t.children[path[0]], path.skip(1))->0;
    let first = ref_pass::uses_in(env, t.children[i], scopes, function, handled);
    let later = ref_pass::uses_from(env, t, i + 1, scopes, function, first.handled);
    if i == path[0] {
        lemma_leaf_in(env, t.children[i], path.skip(1), scopes, function, handled);
    } else {
        lemma_leaf_from(env, t, i + 1, path, scopes, function, first.handled);
        if first.handled.contains(ref_pass::spot(n)) {
            parser_laws::lemma_uses_in(env, t.children[i], scopes, function, handled);
            lemma_handled(env, handled, first, n);
        }
    }
    lemma_referenced(first.references, later.references, n);
}

/// Where all references are kept, every identifier of a file has one at its place, wherever it
/// stands, unless something is defined there; but for an identifier without a text, or with one of
/// more than 256 bytes.
pub proof fn law_every_identifier_is_referenced(
    file: Seq<char>,
    source: Seq<char>,
    language: Seq<char>,
    t: SyntaxTree,
    with_context: bool,
    path: Seq<int>,
)
    requires
        node_at(t, path) is Some,
        is_name(syntax::tag(node_at(t, path)->0)),
        syntax::text_of(source, node_at(t, path)->0).len() > 0,
        encode_utf8(syntax::text_of(source, node_at(t, path)->0)).len() <= 256,
    ensures
        ({
            let s = cpp_parser::tree_symbols(file, source, language, t, ReferenceMode::All, with_context);
            let n = node_at(t, path)->0;
            is_defined_at(s.definitions, n) || is_referenced(s.references, n)
        }),
{
    let s = cpp_parser::tree_symbols(file, source, language, t, ReferenceMode::All, with_context);
    let n = node_at(t, path)->0;
    let env = cpp_parser::reference_env(file, source, s.definitions, ReferenceMode::All, with_context);
    if env.defined.contains(ref_pass::spot(n)) {
        let j = choose|j: int|
            0 <= j < s.definitions.len() && (#[trigger] s.definitions[j]).location.line
                == ref_pass::spot(n).0 && s.definitions[j].location.column == ref_pass::spot(n).1;
        assert(s.definitions[j].location.line == line_in(n.start_row));
    } else {
        lemma_leaf_in(env, t, path, Seq::empty(), None, Set::empty());
    }
}

/// The name that a call calls, in a walk over a tree that keeps references.
proof fn lemma_called_in(
    env: RefEnv,
    t: SyntaxTree,
    path: Seq<int>,
    scopes: Seq<ScopeView>,
    function: Option<Seq<char>>,
    handled: Set<(usize, usize)>,
    name: Seq<char>,
)
    requires
        env.mode != ReferenceMode::Off,
        node_at(t, path) is Some,
        syntax::tag(node_at(t, path)->0) == NodeKind::CallExpression,
        node_at(t, path)->0.children.len() > 0,
        ref_pass::callee_name(env.source, node_at(t, path)->0.children[0]) == Some(name),
        name.len() > 0,
        name != def_pass::name_or_empty(function_at(env.source, t, path, scopes, function)),
        !env.defined.contains(
            ref_pass::spot(ref_pass::called_node(node_at(t, path)->0.children[0])),
        ),
    ensures
        ({
            let n = ref_pass::called_node(node_at(t, path)->0.children[0]);
            handled.contains(ref_pass::spot(n)) || is_referenced(
                ref_pass::uses_in(env, t, scopes, function, handled).references,
                n,
            )
        }),
    decreases path.len(), t.children.len() + 1,
{
    let n = ref_pass::called_node(node_at(t, path)->0.children[0]);
    let own = if syntax::tag(t) == NodeKind::CallExpression {
        ref_pass::call_uses(env, t, function, handled)
    } else {
        ref_pass::no_uses(handled)
    };
    let s = ref_pass::scopes_below(env.source, t, scopes);
    let f = ref_pass::function_below(env.source, t, scopes, function);
    let inner = ref_pass::uses_from(env, t, 0, s, f, own.handled);
    if path.len() == 0 {
        if !handled.contains(ref_pass::spot(n)) {
            assert(own.references[0].location.line == line_in(n.start_row));
            assert(is_referenced(own.references, n));
        }
    } else {
        lemma_called_from(env, t, 0, path, s, f, own.handled, name);
        if own.handled.contains(ref_pass::spot(n)) && !handled.contains(ref_pass::spot(n)) {
            assert(own.references[0].location.line == line_in(n.start_row));
            assert(is_referenced(own.references, n));
        }
    }
    lemma_referenced(own.references, inner.references, n);
}

/// The name that a call calls, in a walk over the children of a tree.
proof fn lemma_called_from(
    env: RefEnv,
    t: SyntaxTree,
    i: int,
    path: Seq<int>,
    scopes: Seq<ScopeView>,
    function: Option<Seq<char>>,
    handled: Set<(usize, usize)>,
    name: Seq<char>,
)
    requires
        env.mode != ReferenceMode::Off,
        path.len() > 0,
        0 <= i <= path[0] < t.children.len(),
        ({
            let c = t.children[path[0]];
            let rest = path.skip(1);
            &&& node_at(c, rest) is Some
            &&& syntax::tag(node_at(c, rest)->0) == NodeKind::CallExpression
            &&& node_at(c, rest)->0.children.len() > 0
            &&& ref_pass::callee_name(env.source, node_at(c, rest)->0.children[0]) == Some(name)
            &&& name.len() > 0
            &&& name != def_pass::name_or_empty(
                function_at(env.source, c, rest, scopes, function),
            )
            &&& !env.defined.contains(
                ref_pass::spot(ref_pass::called_node(node_at(c, rest)->0.children[0])),
            )
        }),
    ensures
        ({
            let n = ref_pass::called_node(
                node_at(t.children[path[0]], path.skip(1))->0.children[0],
            );
            handled.contains(ref_pass::spot(n)) || is_referenced(
                ref_pass::uses_from(env, t, i, scopes, function, handled).references,
                n,
            )
        }),
    decreases path.len(), t.children.len() - i,
{
    let n = ref_pass::called_node(node_at(t.children[path[0]], path.skip(1))->0.children[0]);
    let first = ref_pass::uses_in(env, t.children[i], scopes, function, handled);
    let later = ref_pass::uses_from(env, t, i + 1, scopes, function, first.handled);
    if i == path[0] {
        lemma_called_in(env, t.children[i], path.skip(1), scopes, function, handled, name);
    } else {
        lemma_called_from(env, t, i + 1, path, scopes, function, first.handled, name);
        if first.handled.contains(ref_pass::spot(n)) {
            parser_laws::lemma_uses_in(env, t.children[i], scopes, function, handled);
            lemma_handled(env, handled, first, n);
        }
    }
    lemma_referenced(first.references, later.references, n);
}

/// Unless references are switched off, every call that is recorded has a reference where the
/// called name stands, unless something is defined there.
pub proof fn law_every_called_name_is_referenced(
    file: Seq<char>,
    source: Seq<char>,
    language: Seq<char>,
    t: SyntaxTree,
    mode: ReferenceMode,
    with_context: bool,
    path: Seq<int>,
    name: Seq<char>,
)
    requires
        mode != ReferenceMode::Off,
        node_at(t, path) is Some,
        syntax::tag(node_at(t, path)->0) == NodeKind::CallExpression,
        node_at(t, path)->0.children.len() > 0,
        calls_name(source, node_at(t, path)->0.children[0], name),
        name.len() > 0,
        name != function_around(source, t, path),
    ensures
        ({
            let s = cpp_parser::tree_symbols(file, source, language, t, mode, with_context);
            let n = called_name_node(node_at(t, path)->0.children[0]);
            is_defined_at(s.definitions, n) || is_referenced(s.references, n)
        }),
{
    let s = cpp_parser::tree_symbols(file, source, language, t, mode, with_context);
    let callee = node_at(t, path)->0.children[0];
    let n = called_name_node(callee);
    let env = cpp_parser::reference_env(file, source, s.definitions, mode, with_context);
    lemma_called_name_node(callee);
    if env.defined.contains(ref_pass::spot(n)) {
        let j = choose|j: int|
            0 <= j < s.definitions.len() && (#[trigger] s.definitions[j]).location.line
                == ref_pass::spot(n).0 && s.definitions[j].location.column == ref_pass::spot(n).1;
        assert(s.definitions[j].location.line == line_in(n.start_row));
    } else {
        lemma_callee_name(source, callee, name);
        lemma_around(source, t, path);
        lemma_called_in(env, t, path, Seq::empty(), None, Set::empty(), name);
    }
}

/// Whether a reference is the use of a name by an identifier, or by a call that calls it.
pub open spec fn uses_node(
    file: Seq<char>,
    source: Seq<char>,
    n: SyntaxTree,
    mode: ReferenceMode,
    r: ReferenceView,
) -> bool {
    ||| {
        &&& mode == ReferenceMode::All
        &&& is_name(syntax::tag(n))
        &&& r.name == syntax::text_of(source, n)
        &&& encode_utf8(r.name).len() <= 256
        &&& r.location == location_in(file, n)
    }
    ||| {
        &&& mode != ReferenceMode::Off
        &&& syntax::tag(n) == NodeKind::CallExpression
        &&& n.children.len() > 0
        &&& calls_name(source, n.children[0], r.name)
        &&& r.location == location_in(file, called_name_node(n.children[0]))
    }
}

/// Where a reference of a walk over a tree comes from.
proof fn lemma_reference_source(
    env: RefEnv,
    t: SyntaxTree,
    scopes: Seq<ScopeView>,
    function: Option<Seq<char>>,
    handled: Set<(usize, usize)>,
    k: int,
) -> (path: Seq<int>)
    requires
        0 <= k < ref_pass::uses_in(env, t, scopes, function, handled).references.len(),
    ensures
        ({
            let r = ref_pass::uses_in(env, t, scopes, function, handled).references[k];
            &&& node_at(t, path) is Some
            &&& uses_node(env.file, env.source, node_at(t, path)->0, env.mode, r)
        }),
    decreases t, t.children.len() + 1,
{
    let own = if syntax::tag(t) == NodeKind::CallExpression {
        ref_pass::call_uses(env, t, function, handled)
    } else {
        ref_pass::no_uses(handled)
    };
    let s = ref_pass::scopes_below(env.source, t, scopes);
    let f = ref_pass::function_below(env.source, t, scopes, function);
    if def_pass::is_leaf(t) {
        Seq::empty()
    } else if k < own.references.len() {
        lemma_called_name_node(t.children[0]);
        lemma_callee_name(env.source, t.children[0], own.references[0].name);
        Seq::empty()
    } else {
        lemma_reference_source_from(env, t, 0, s, f, own.handled, k - own.references.len())
    }
}

/// Where a reference of a walk over the children of a tree comes from.
proof fn lemma_reference_source_from(
    env: RefEnv,
    t: SyntaxTree,
    i: int,
    scopes: Seq<ScopeView>,
    function: Option<Seq<char>>,
    handled: Set<(usize, usize)>,
    k: int,
) -> (path: Seq<int>)
    requires
        !is_name(syntax::tag(t)),
        0 <= i,
        0 <= k < ref_pass::uses_from(env, t, i, scopes, function, handled).references.len(),
    ensures
        ({
            let r = ref_pass::uses_from(env, t, i, scopes, function, handled).references[k];
            &&& node_at(t, path) is Some
            &&& uses_node(env.file, env.source, node_at(t, path)->0, env.mode, r)
        }),
    decreases t, t.children.len() - i,
{
    let first = ref_pass::uses_in(env, t.children[i], scopes, function, handled);
    if k < first.references.len() {
        let rest = lemma_reference_source(env, t.children[i], scopes, function, handled, k);
        let path = seq![i] + rest;
        assert(path.skip(1) =~= rest);
        path
    } else {
        lemma_reference_source_from(
            env,
            t,
            i + 1,
            scopes,
            function,
            first.handled,
            k - first.references.len(),
        )
    }
}

/// Every reference of a file is the use of a name that is there: it stands at an identifier,
/// under its text, where all references are kept; or where a call names what it calls, under that
/// name, unless references are switched off.
pub proof fn law_every_reference_is_a_use(
    file: Seq<char>,
    source: Seq<char>,
    language: Seq<char>,
    t: SyntaxTree,
    mode: ReferenceMode,
    with_context: bool,
    k: int,
)
    requires
        0 <= k < cpp_parser::tree_symbols(file, source, language, t, mode, with_context).references.len(),
    ensures
        ({
            let r = cpp_parser::tree_symbols(file, source, language, t, mode, with_context).references[k];
            exists|path: Seq<int>| #[trigger]
                node_at(t, path) is Some && uses_node(file, source, node_at(t, path)->0, mode, r)
        }),
{
    let definitions = def_pass::found_in(file, source, t, Seq::empty(), None).definitions;
    let env = cpp_parser::reference_env(file, source, definitions, mode, with_context);
    let path = lemma_reference_source(env, t, Seq::empty(), None, Set::empty(), k);
    assert(node_at(t, path) is Some);
}

/// Whether a node opens a scope.
pub open spec fn opens_scope(t: SyntaxTree) -> bool {
    ||| syntax::tag(t) == NodeKind::NamespaceDefinition
    ||| syntax::tag(t) == NodeKind::ClassSpecifier
    ||| syntax::tag(t) == NodeKind::StructSpecifier
    ||| syntax::tag(t) == NodeKind::UnionSpecifier
    ||| syntax::tag(t) == NodeKind::EnumSpecifier
}

/// The visibility that an access word sets.
pub open spec fn word_sets(s: Seq<char>) -> Option<Visibility> {
    if s == "public"@ || s == "public:"@ {
        Some(Visibility::Public)
    } else if s == "protected"@ || s == "protected:"@ {
        Some(Visibility::Protected)
    } else if s == "private"@ || s == "private:"@ {
        Some(Visibility::Private)
    } else {
        None
    }
}

/// The visibility at the start of a node, where it was another in front of it: in a class it starts
/// as private and in any other scope as public; inside a scope an access word sets it.
pub open spec fn visibility_in(
    source: Seq<char>,
    t: SyntaxTree,
    before: Option<Visibility>,
) -> Option<Visibility> {
    if syntax::tag(t) == NodeKind::ClassSpecifier {
        Some(Visibility::Private)
    } else if opens_scope(t) {
        Some(Visibility::Public)
    } else if syntax::tag(t) == NodeKind::AccessSpecifier && before is Some && word_sets(
        syntax::text_of(source, t),
    ) is Some {
        word_sets(syntax::text_of(source, t))
    } else {
        before
    }
}

/// The visibility behind a node: what it was in front of a scope, of a base class clause and of an
/// identifier, and else what it is behind the last child.
pub open spec fn visibility_behind(
    source: Seq<char>,
    t: SyntaxTree,
    before: Option<Visibility>,
) -> Option<Visibility>
    decreases t, t.children.len() + 1,
{
    if is_name(syntax::tag(t)) || opens_scope(t) || syntax::tag(t) == NodeKind::BaseClassClause {
        before
    } else {
        visibility_behind_first(
            source,
            t,
            t.children.len() as int,
            visibility_in(source, t, before),
        )
    }
}

/// The visibility behind the first children of a node.
pub open spec fn visibility_behind_first(
    source: Seq<char>,
    t: SyntaxTree,
    i: int,
    before: Option<Visibility>,
) -> Option<Visibility>
    decreases t, i,
{
    if i <= 0 || i > t.children.len() {
        before
    } else {
        visibility_behind(
            source,
            t.children[i - 1],
            visibility_behind_first(source, t, i - 1, before),
        )
    }
}

/// The visibility in front of the node at a path.
pub open spec fn visibility_before(
    source: Seq<char>,
    t: SyntaxTree,
    path: Seq<int>,
    before: Option<Visibility>,
) -> Option<Visibility>
    decreases path.len(),
{
    if path.len() == 0 {
        before
    } else {
        visibility_before(
            source,
            t.children[path[0]],
            path.skip(1),
            visibility_behind_first(source, t, path[0], visibility_in(source, t, before)),
        )
    }
}

/// The visibility that holds at the node at a path: public outside of all scopes.
pub open spec fn visibility_at(source: Seq<char>, t: SyntaxTree, path: Seq<int>) -> Visibility {
    match visibility_before(source, t, path, None) {
        Some(v) => v,
        None => Visibility::Public,
    }
}

/// The visibility behind a node is what the pass leaves behind it.
proof fn lemma_visibility_behind(
    file: Seq<char>,
    source: Seq<char>,
    t: SyntaxTree,
    scopes: Seq<ScopeView>,
    before: Option<Visibility>,
)
    ensures
        def_pass::found_in(file, source, t, scopes, before).visibility == visibility_behind(
            source,
            t,
            before,
        ),
    decreases t, t.children.len() + 1,
{
    if !is_name(syntax::tag(t)) && !opens_scope(t) {
        let inner = def_pass::access_after(source, t, before);
        assert(inner == visibility_in(source, t, before));
        lemma_visibility_from(file, source, t, 0, scopes, inner, inner);
    }
}

/// The visibility behind the children of a node is what the pass leaves behind them.
proof fn lemma_visibility_from(
    file: Seq<char>,
    source: Seq<char>,
    t: SyntaxTree,
    i: int,
    scopes: Seq<ScopeView>,
    start: Option<Visibility>,
    before: Option<Visibility>,
)
    requires
        0 <= i <= t.children.len(),
        before == visibility_behind_first(source, t, i, start),
    ensures
        def_pass::found_from(file, source, t, i, scopes, before).visibility
            == visibility_behind_first(source, t, t.children.len() as int, start),
    decreases t, t.children.len() - i,
{
    if i < t.children.len() {
        lemma_visibility_behind(file, source, t.children[i], scopes, before);
        let next = visibility_behind(source, t.children[i], before);
        assert(next == visibility_behind_first(source, t, i + 1, start));
        lemma_visibility_from(file, source, t, i + 1, scopes, start, next);
    }
}

/// What the node at a path defines is among what the tree defines.
proof fn lemma_found_at(
    file: Seq<char>,
    source: Seq<char>,
    t: SyntaxTree,
    path: Seq<int>,
    scopes: Seq<ScopeView>,
    visibility: Option<Visibility>,
)
    requires
        node_at(t, path) is Some,
        !is_name(syntax::tag(node_at(t, path)->0)),
    ensures
        ({
            let n = node_at(t, path)->0;
            let around = scopes_at(source, t, path, scopes);
            let found = def_pass::found_in(file, source, t, scopes, visibility);
            let v = def_pass::in_force(visibility_before(source, t, path, visibility));
            &&& forall|d: DefinitionView| #[trigger]
                def_pass::own_symbols(file, source, n, around, v).contains(d)
                    ==> found.definitions.contains(d)
            &&& forall|e: InheritEdgeView| #[trigger]
                def_pass::own_bases(file, source, n, around, v).contains(e)
                    ==> found.inherits.contains(e)
        }),
    decreases path.len(), t.children.len() + 1,
{
    let found = def_pass::found_in(file, source, t, scopes, visibility);
    let own = def_pass::own_symbols(file, source, t, scopes, def_pass::in_force(visibility));
    let bases = def_pass::own_bases(file, source, t, scopes, def_pass::in_force(visibility));
    let below = ref_pass::scopes_below(source, t, scopes);
    let inner_visibility = match def_pass::opened(source, t) {
        Some((_, w)) => Some(w),
        None => def_pass::access_after(source, t, visibility),
    };
    let inner = def_pass::found_from(file, source, t, 0, below, inner_visibility);
    assert(found.definitions == own + inner.definitions);
    assert(found.inherits == bases + inner.inherits);
    if path.len() == 0 {
        assert forall|d: DefinitionView| #[trigger] own.contains(d) implies found.definitions.contains(
            d,
        ) by {
            lemma_contained(own, inner.definitions, d);
        }
        assert forall|e: InheritEdgeView| #[trigger] bases.contains(e) implies found.inherits.contains(
            e,
        ) by {
            lemma_contained(bases, inner.inherits, e);
        }
    } else {
        let v = visibility_before(source, t, path, visibility);
        assert(inner_visibility == visibility_in(source, t, visibility));
        lemma_found_at_from(
            file,
            source,
            t,
            0,
            path,
            below,
            inner_visibility,
            inner_visibility,
        );
        let n = node_at(t, path)->0;
        let around = scopes_at(source, t, path, scopes);
        assert(n == node_at(t.children[path[0]], path.skip(1))->0);
        assert(around == scopes_at(source, t.children[path[0]], path.skip(1), below));
        assert forall|d: DefinitionView| #[trigger]
            def_pass::own_symbols(file, source, n, around, def_pass::in_force(v)).contains(
                d,
            ) implies found.definitions.contains(d) by {
            lemma_contained(own, inner.definitions, d);
        }
        assert forall|e: InheritEdgeView| #[trigger]
            def_pass::own_bases(file, source, n, around, def_pass::in_force(v)).contains(
                e,
            ) implies found.inherits.contains(e) by {
            lemma_contained(bases, inner.inherits, e);
        }
    }
}

/// What the node at a path defines is among what the children of the tree define.
proof fn lemma_found_at_from(
    file: Seq<char>,
    source: Seq<char>,
    t: SyntaxTree,
    i: int,
    path: Seq<int>,
    scopes: Seq<ScopeView>,
    start: Option<Visibility>,
    visibility: Option<Visibility>,
)
    requires
        path.len() > 0,
        0 <= i <= path[0] < t.children.len(),
        visibility == visibility_behind_first(source, t, i, start),
        node_at(t.children[path[0]], path.skip(1)) is Some,
        !is_name(syntax::tag(node_at(t.children[path[0]], path.skip(1))->0)),
    ensures
        ({
            let n = node_at(t.children[path[0]], path.skip(1))->0;
            let around = scopes_at(source, t.children[path[0]], path.skip(1), scopes);
            let found = def_pass::found_from(file, source, t, i, scopes, visibility);
            let v = def_pass::in_force(
                visibility_before(
                    source,
                    t.children[path[0]],
                    path.skip(1),
                    visibility_behind_first(source, t, path[0], start),
                ),
            );
            &&& forall|d: DefinitionView| #[trigger]
                def_pass::own_symbols(file, source, n, around, v).contains(d)
                    ==> found.definitions.contains(d)
            &&& forall|e: InheritEdgeView| #[trigger]
                def_pass::own_bases(file, source, n, around, v).contains(e)
                    ==> found.inherits.contains(e)
        }),
    decreases path.len(), t.children.len() - i,
{
    let first = def_pass::found_in(file, source, t.children[i], scopes, visibility);
    let later = def_pass::found_from(file, source, t, i + 1, scopes, first.visibility);
    let found = def_pass::found_from(file, source, t, i, scopes, visibility);
    let v = visibility_before(
        source,
        t.children[path[0]],
        path.skip(1),
        visibility_behind_first(source, t, path[0], start),
    );
    if i == path[0] {
        lemma_found_at(file, source, t.children[i], path.skip(1), scopes, visibility);
    } else {
        lemma_visibility_behind(file, source, t.children[i], scopes, visibility);
        lemma_found_at_from(file, source, t, i + 1, path, scopes, start, first.visibility);
    }
    let n = node_at(t.children[path[0]], path.skip(1))->0;
    let around = scopes_at(source, t.children[path[0]], path.skip(1), scopes);
    assert forall|d: DefinitionView| #[trigger]
        def_pass::own_symbols(file, source, n, around, def_pass::in_force(v)).contains(
            d,
        ) implies found.definitions.contains(d) by {
        lemma_contained(first.definitions, later.definitions, d);
    }
    assert forall|e: InheritEdgeView| #[trigger]
        def_pass::own_bases(file, source, n, around, def_pass::in_force(v)).contains(
            e,
        ) implies found.inherits.contains(e) by {
        lemma_contained(first.inherits, later.inherits, e);
    }
}

/// Where a definition of a tree comes from.
proof fn lemma_definition_source(
    file: Seq<char>,
    source: Seq<char>,
    t: SyntaxTree,
    scopes: Seq<ScopeView>,
    visibility: Option<Visibility>,
    k: int,
) -> (path: Seq<int>)
    requires
        0 <= k < def_pass::found_in(file, source, t, scopes, visibility).definitions.len(),
    ensures
        ({
            let d = def_pass::found_in(file, source, t, scopes, visibility).definitions[k];
            &&& node_at(t, path) is Some
            &&& def_pass::own_symbols(
                file,
                source,
                node_at(t, path)->0,
                scopes_at(source, t, path, scopes),
                def_pass::in_force(visibility_before(source, t, path, visibility)),
            ).contains(d)
        }),
    decreases t, t.children.len() + 1,
{
    let own = def_pass::own_symbols(file, source, t, scopes, def_pass::in_force(visibility));
    let below = ref_pass::scopes_below(source, t, scopes);
    let inner_visibility = match def_pass::opened(source, t) {
        Some((_, w)) => Some(w),
        None => def_pass::access_after(source, t, visibility),
    };
    if k < own.len() {
        assert(own.contains(own[k]));
        Seq::empty()
    } else {
        assert(inner_visibility == visibility_in(source, t, visibility));
        lemma_definition_source_from(
            file,
            source,
            t,
            0,
            below,
            inner_visibility,
            inner_visibility,
            k - own.len(),
        )
    }
}

/// Where a definition of the children of a tree comes from.
proof fn lemma_definition_source_from(
    file: Seq<char>,
    source: Seq<char>,
    t: SyntaxTree,
    i: int,
    scopes: Seq<ScopeView>,
    start: Option<Visibility>,
    visibility: Option<Visibility>,
    k: int,
) -> (path: Seq<int>)
    requires
        !is_name(syntax::tag(t)),
        0 <= i <= t.children.len(),
        visibility == visibility_behind_first(source, t, i, start),
        0 <= k < def_pass::found_from(file, source, t, i, scopes, visibility).definitions.len(),
    ensures
        ({
            let d = def_pass::found_from(file, source, t, i, scopes, visibility).definitions[k];
            let c = t.children[path[0]];
            let rest = path.skip(1);
            let before = visibility_behind_first(source, t, path[0], start);
            &&& path.len() > 0
            &&& 0 <= path[0] < t.children.len()
            &&& node_at(c, rest) is Some
            &&& def_pass::own_symbols(
                file,
                source,
                node_at(c, rest)->0,
                scopes_at(source, c, rest, scopes),
                def_pass::in_force(visibility_before(source, c, rest, before)),
            ).contains(d)
        }),
    decreases t, t.children.len() - i,
{
    let first = def_pass::found_in(file, source, t.children[i], scopes, visibility);
    if k < first.definitions.len() {
        let rest = lemma_definition_source(
            file,
            source,
            t.children[i],
            scopes,
            visibility,
            k,
        );
        let path = seq![i] + rest;
        assert(path.skip(1) =~= rest);
        path
    } else {
        lemma_visibility_behind(file, source, t.children[i], scopes, visibility);
        lemma_definition_source_from(
            file,
            source,
            t,
            i + 1,
            scopes,
            start,
            first.visibility,
            k - first.definitions.len(),
        )
    }
}

/// The parent below scopes: their names, joined.
pub open spec fn parent_of(around: Seq<Seq<char>>) -> Option<Seq<char>> {
    if around.len() == 0 {
        None
    } else {
        Some(text::join(around, "::"@))
    }
}

/// Whether a definition is of a name and a kind at a node, inside scopes.
pub open spec fn defines(
    file: Seq<char>,
    around: Seq<Seq<char>>,
    d: DefinitionView,
    name: Seq<char>,
    kind: SymbolKind,
    at: SyntaxTree,
) -> bool {
    &&& d.name == name
    &&& d.kind == kind
    &&& d.qualified_name == text::join(around.push(name), "::"@)
    &&& d.parent == if kind == SymbolKind::Macro {
        None
    } else {
        parent_of(around)
    }
    &&& d.location == location_in(file, at)
}

/// Whether the child at a position is the last type name of a node.
pub open spec fn is_last_type(t: SyntaxTree, k: int) -> bool {
    &&& 0 <= k < t.children.len()
    &&& syntax::tag(t.children[k]) == NodeKind::TypeIdentifier
    &&& forall|j: int|
        k < j < t.children.len() ==> syntax::tag(#[trigger] t.children[j])
            != NodeKind::TypeIdentifier
}

/// The last type name of a node.
proof fn lemma_last_type(t: SyntaxTree, i: int)
    requires
        0 <= i <= t.children.len(),
        forall|j: int|
            i <= j < t.children.len() ==> syntax::tag(#[trigger] t.children[j])
                != NodeKind::TypeIdentifier,
    ensures
        match def_pass::last_type_child(t, i) {
            Some(c) => exists|k: int| #[trigger] is_last_type(t, k) && t.children[k] == c,
            None => forall|k: int| !is_last_type(t, k),
        },
    decreases i,
{
    if i > 0 {
        if syntax::tag(t.children[i - 1]) == NodeKind::TypeIdentifier {
            assert(is_last_type(t, i - 1));
        } else {
            lemma_last_type(t, i - 1);
        }
    }
}

/// The names that a symbol has below scopes.
proof fn lemma_symbol_names(scopes: Seq<ScopeView>, name: Seq<char>)
    ensures
        scope::name_in(scope::scope_name(scopes), name) == text::join(
            scope::scope_names(scopes).push(name),
            "::"@,
        ),
        scope::scope_name(scopes) == parent_of(scope::scope_names(scopes)),
{
    lemma_full_name(scopes, None, name);
}

/// Every typedef of a file is defined, wherever it stands: under its last type name and at the
/// place of that, whatever other type names it holds.
pub proof fn law_every_typedef_is_defined(
    file: Seq<char>,
    source: Seq<char>,
    language: Seq<char>,
    t: SyntaxTree,
    mode: ReferenceMode,
    with_context: bool,
    path: Seq<int>,
    k: int,
)
    requires
        node_at(t, path) is Some,
        syntax::tag(node_at(t, path)->0) == NodeKind::TypeDefinition,
        is_last_type(node_at(t, path)->0, k),
    ensures
        ({
            let s = cpp_parser::tree_symbols(file, source, language, t, mode, with_context);
            let c = node_at(t, path)->0.children[k];
            exists|d: DefinitionView| #[trigger]
                s.definitions.contains(d) && defines(
                    file,
                    names_around(source, t, path),
                    d,
                    syntax::text_of(source, c),
                    SymbolKind::Typedef,
                    c,
                ) && d.is_definition
        }),
{
    let s = cpp_parser::tree_symbols(file, source, language, t, mode, with_context);
    let n = node_at(t, path)->0;
    let v = visibility_before(source, t, path, None);
    lemma_found_at(file, source, t, path, Seq::empty(), None);
    let scopes = scopes_at(source, t, path, Seq::empty());
    lemma_around(source, t, path);
    lemma_last_type(n, n.children.len() as int);
    let own = def_pass::own_symbols(file, source, n, scopes, def_pass::in_force(v));
    assert(def_pass::last_type_child(n, n.children.len() as int) == Some(n.children[k]));
    let d = own[0];
    assert(own.contains(d));
    lemma_symbol_names(scopes, d.name);
    assert(s.definitions.contains(d));
}

/// A typedef defines nothing else: every definition of that kind stands at, and is named by, the
/// last type name of a typedef.
pub proof fn law_typedefs_define_their_last_name(
    file: Seq<char>,
    source: Seq<char>,
    language: Seq<char>,
    t: SyntaxTree,
    mode: ReferenceMode,
    with_context: bool,
    i: int,
)
    requires
        0 <= i < cpp_parser::tree_symbols(file, source, language, t, mode, with_context).definitions.len(),
        cpp_parser::tree_symbols(file, source, language, t, mode, with_context).definitions[i].kind
            == SymbolKind::Typedef,
    ensures
        ({
            let d = cpp_parser::tree_symbols(file, source, language, t, mode, with_context).definitions[i];
            exists|path: Seq<int>, k: int|
                #![trigger node_at(t, path), is_last_type(node_at(t, path)->0, k)]
                node_at(t, path) is Some && syntax::tag(node_at(t, path)->0)
                    == NodeKind::TypeDefinition && is_last_type(node_at(t, path)->0, k) && defines(
                    file,
                    names_around(source, t, path),
                    d,
                    syntax::text_of(source, node_at(t, path)->0.children[k]),
                    SymbolKind::Typedef,
                    node_at(t, path)->0.children[k],
                )
        }),
{
    let d = cpp_parser::tree_symbols(file, source, language, t, mode, with_context).definitions[i];
    let path = lemma_definition_source(file, source, t, Seq::empty(), None, i);
    let v = visibility_at(source, t, path);
    let n = node_at(t, path)->0;
    let scopes = scopes_at(source, t, path, Seq::empty());
    lemma_around(source, t, path);
    lemma_last_type(n, n.children.len() as int);
    let own = def_pass::own_symbols(file, source, n, scopes, v);
    if syntax::tag(n) == NodeKind::Declaration || syntax::tag(n) == NodeKind::FieldDeclaration {
        lemma_declared_kinds(file, source, n, 0, scopes, v, d);
    }
    assert(syntax::tag(n) == NodeKind::TypeDefinition);
    assert(own.len() == 1 && own[0] == d);
    lemma_symbol_names(scopes, d.name);
    let k = choose|k: int| #[trigger]
        is_last_type(n, k) && Some(n.children[k]) == def_pass::last_type_child(
            n,
            n.children.len() as int,
        );
    assert(is_last_type(node_at(t, path)->0, k));
}

/// A declaration declares functions, variables and fields alone.
proof fn lemma_declared_kinds(
    file: Seq<char>,
    source: Seq<char>,
    t: SyntaxTree,
    i: int,
    scopes: Seq<ScopeView>,
    v: Visibility,
    d: DefinitionView,
)
    requires
        0 <= i,
        def_pass::declared_from(file, source, t, i, scopes, v).contains(d),
    ensures
        d.kind == SymbolKind::Function || d.kind == SymbolKind::Method || d.kind
            == SymbolKind::Constructor || d.kind == SymbolKind::Destructor || d.kind
            == SymbolKind::Variable || d.kind == SymbolKind::Field,
        exists|k: int|
            i <= k < t.children.len() && !#[trigger] def_pass::is_value(t, k)
                && def_pass::declared_by(file, source, t, t.children[k], scopes, v) == Some(d),
    decreases t.children.len() - i,
{
    let all = def_pass::declared_from(file, source, t, i, scopes, v);
    let rest = def_pass::declared_from(file, source, t, i + 1, scopes, v);
    let own = if def_pass::is_value(t, i) {
        None
    } else {
        def_pass::declared_by(file, source, t, t.children[i], scopes, v)
    };
    assert(all == def_pass::one_or_none(own) + rest);
    let m = choose|m: int| 0 <= m < all.len() && all[m] == d;
    if own is Some && m == 0 {
        assert(!def_pass::is_value(t, i));
    } else {
        let j = if own is Some {
            m - 1
        } else {
            m
        };
        assert(rest[j] == d);
        lemma_declared_kinds(file, source, t, i + 1, scopes, v, d);
    }
}

/// A symbol at a node, inside scopes.
pub open spec fn symbol_at(
    file: Seq<char>,
    around: Seq<Seq<char>>,
    name: Seq<char>,
    kind: SymbolKind,
    at: SyntaxTree,
    visibility: Visibility,
    is_definition: bool,
    signature: Option<Seq<char>>,
) -> DefinitionView {
    DefinitionView {
        id: None,
        name,
        qualified_name: text::join(around.push(name), "::"@),
        kind,
        location: location_in(file, at),
        parent: parent_of(around),
        signature,
        visibility,
        is_definition,
        extra: None,
    }
}

/// The scopes around a name that is written with a qualifier.
pub open spec fn with_qualifier(
    around: Seq<Seq<char>>,
    qualifier: Option<Seq<char>>,
) -> Seq<Seq<char>> {
    match qualifier {
        Some(q) if q.len() > 0 => around.push(q),
        _ => around,
    }
}

/// The kind of a function: named with `~` it is a destructor; in a type or written with a qualifier
/// it is a method, and a constructor where it is named like what it stands in.
pub open spec fn kind_of_function(
    name: Seq<char>,
    parent: Option<Seq<char>>,
    is_method: bool,
) -> SymbolKind {
    if name.len() > 0 && name[0] == '~' {
        SymbolKind::Destructor
    } else if !is_method {
        SymbolKind::Function
    } else if parent is Some && name == text::simple(parent->0) || parent is None && name.len()
        == 0 {
        SymbolKind::Constructor
    } else {
        SymbolKind::Method
    }
}

/// Whether a node is a class, struct or union.
pub open spec fn is_type(t: SyntaxTree) -> bool {
    ||| syntax::tag(t) == NodeKind::ClassSpecifier
    ||| syntax::tag(t) == NodeKind::StructSpecifier
    ||| syntax::tag(t) == NodeKind::UnionSpecifier
}

/// Whether a class, struct or union stands above the node at a path.
pub open spec fn in_a_type(t: SyntaxTree, path: Seq<int>) -> bool {
    exists|m: int|
        0 <= m < path.len() && (#[trigger] node_at(t, path.take(m)) matches Some(p) && is_type(p))
}

/// The innermost scope above the node at a path.
pub open spec fn innermost_scope(t: SyntaxTree, path: Seq<int>) -> Option<SyntaxTree>
    decreases path.len(),
{
    if path.len() == 0 {
        None
    } else {
        match node_at(t, path.drop_last()) {
            Some(p) if opens_scope(p) => Some(p),
            _ => innermost_scope(t, path.drop_last()),
        }
    }
}

/// Whether what is declared in a scope is a field of it: in a class, struct, union or enum.
pub open spec fn has_fields(scope: Option<SyntaxTree>) -> bool {
    scope matches Some(p) && (is_type(p) || syntax::tag(p) == NodeKind::EnumSpecifier)
}

/// The node that names a scope: its `name` field, else the first name below it, else itself.
pub open spec fn naming_node(t: SyntaxTree) -> SyntaxTree {
    if exists|j: int| #[trigger] is_field(t, FieldName::Name, j) {
        t.children[choose|j: int| #[trigger] is_field(t, FieldName::Name, j)]
    } else {
        match names::name_below(t, true, 0) {
            Some(c) => c,
            None => t,
        }
    }
}

/// Whether a symbol is that of a function.
pub open spec fn is_function_symbol(
    file: Seq<char>,
    t: SyntaxTree,
    path: Seq<int>,
    around: Seq<Seq<char>>,
    qualifier: Option<Seq<char>>,
    name: Seq<char>,
    at: SyntaxTree,
    visibility: Visibility,
    is_definition: bool,
    signature: Option<Seq<char>>,
    d: DefinitionView,
) -> bool {
    let outer = with_qualifier(around, qualifier);
    d == symbol_at(
        file,
        outer,
        name,
        kind_of_function(name, parent_of(outer), in_a_type(t, path) || qualifier is Some),
        at,
        visibility,
        is_definition,
        signature,
    )
}

/// Whether a declarator of a declaration declares a symbol: a function, where it is a function
/// declarator with a name; else a field or a variable, where it has a name.
pub open spec fn declarator_declares(
    file: Seq<char>,
    source: Seq<char>,
    t: SyntaxTree,
    path: Seq<int>,
    c: SyntaxTree,
    d: DefinitionView,
) -> bool {
    let n = node_at(t, path)->0;
    let around = names_around(source, t, path);
    let v = visibility_at(source, t, path);
    let function = match names::function_declarator(c) {
        Some(f) => names::declared_name(source, f),
        None => None,
    };
    match function {
        Some((q, name)) => is_function_symbol(
            file,
            t,
            path,
            around,
            q,
            name,
            def_pass::function_name_node(n, names::function_declarator(c)),
            v,
            false,
            Some(syntax::text_of(source, n)),
            d,
        ),
        None => match def_pass::variable_name_node(c) {
            Some(at) => d == symbol_at(
                file,
                around,
                syntax::text_of(source, at),
                if has_fields(innermost_scope(t, path)) {
                    SymbolKind::Field
                } else {
                    SymbolKind::Variable
                },
                at,
                v,
                true,
                None,
            ),
            None => false,
        },
    }
}

/// Whether the child at a position of a declaration can be a declarator: it is no value behind an
/// equals sign.
pub open spec fn is_declarator(t: SyntaxTree, k: int) -> bool {
    &&& 0 <= k < t.children.len()
    &&& k == 0 || syntax::tag(t.children[k - 1]) != NodeKind::EqualsSign
}

/// Whether the node at a path defines or declares a symbol.
pub open spec fn declares(
    file: Seq<char>,
    source: Seq<char>,
    t: SyntaxTree,
    path: Seq<int>,
    d: DefinitionView,
) -> bool {
    let n = node_at(t, path)->0;
    let around = names_around(source, t, path);
    let v = visibility_at(source, t, path);
    node_at(t, path) is Some && match syntax::tag(n) {
        NodeKind::NamespaceDefinition
        | NodeKind::ClassSpecifier
        | NodeKind::StructSpecifier
        | NodeKind::UnionSpecifier
        | NodeKind::EnumSpecifier => opens(source, n, d.name) && d == symbol_at(
            file,
            around,
            d.name,
            match syntax::tag(n) {
                NodeKind::NamespaceDefinition => SymbolKind::Namespace,
                NodeKind::ClassSpecifier => SymbolKind::Class,
                NodeKind::StructSpecifier => SymbolKind::Struct,
                NodeKind::UnionSpecifier => SymbolKind::Union,
                _ => SymbolKind::Enum,
            },
            naming_node(n),
            v,
            false,
            None,
        ),
        NodeKind::FunctionDefinition => match names::function_name(source, n) {
            Some((q, name)) => is_function_symbol(
                file,
                t,
                path,
                around,
                q,
                name,
                def_pass::function_name_node(n, names::function_declarator_from(n, 0)),
                v,
                true,
                def_pass::function_head(source, n),
                d,
            ),
            None => false,
        },
        NodeKind::Declaration | NodeKind::FieldDeclaration => exists|k: int| #[trigger]
            is_declarator(n, k) && declarator_declares(file, source, t, path, n.children[k], d),
        NodeKind::PreprocDef | NodeKind::PreprocFunctionDef => exists|j: int| #[trigger]
            is_field(n, FieldName::Name, j) && d == (DefinitionView {
                parent: None,
                ..symbol_at(
                    file,
                    around,
                    syntax::text_of(source, n.children[j]),
                    SymbolKind::Macro,
                    n.children[j],
                    Visibility::Public,
                    true,
                    None,
                )
            }),
        NodeKind::TypeDefinition => exists|k: int| #[trigger]
            is_last_type(n, k) && d == symbol_at(
                file,
                around,
                syntax::text_of(source, n.children[k]),
                SymbolKind::Typedef,
                n.children[k],
                v,
                true,
                None,
            ),
        NodeKind::Enumerator => exists|j: int| #[trigger]
            is_field(n, FieldName::Name, j) && d == symbol_at(
                file,
                around,
                syntax::text_of(source, n.children[j]),
                SymbolKind::EnumVariant,
                n.children[j],
                Visibility::Public,
                true,
                None,
            ),
        _ => false,
    }
}

/// The scopes that the pass knows tell what stands above a node.
proof fn lemma_scope_kinds(source: Seq<char>, t: SyntaxTree, path: Seq<int>)
    requires
        node_at(t, path) is Some,
    ensures
        scope::in_type(scopes_at(source, t, path, Seq::empty())) == in_a_type(t, path),
        scope::declares_fields(scopes_at(source, t, path, Seq::empty())) == has_fields(
            innermost_scope(t, path),
        ),
        scopes_at(source, t, path, Seq::empty()).len() > 0 <==> innermost_scope(t, path) is Some,
        innermost_scope(t, path) matches Some(p) ==> opens_scope(p) && scopes_at(
            source,
            t,
            path,
            Seq::empty(),
        ).last().name == opened_name(source, p),
    decreases path.len(),
{
    let scopes = scopes_at(source, t, path, Seq::empty());
    if path.len() > 0 {
        let up = path.drop_last();
        lemma_step(source, t, path, Seq::empty(), None);
        lemma_scope_kinds(source, t, up);
        let p = node_at(t, up)->0;
        let outer = scopes_at(source, t, up, Seq::empty());
        lemma_opened(source, p);
        assert(path.take(path.len() - 1) =~= up);
        if in_a_type(t, path) {
            let m = choose|m: int|
                0 <= m < path.len() && (#[trigger] node_at(t, path.take(m)) matches Some(q)
                    && is_type(q));
            if m < up.len() {
                assert(up.take(m) =~= path.take(m));
                assert(in_a_type(t, up));
            }
        }
        if in_a_type(t, up) {
            let m = choose|m: int|
                0 <= m < up.len() && (#[trigger] node_at(t, up.take(m)) matches Some(q)
                    && is_type(q));
            assert(up.take(m) =~= path.take(m));
            assert(in_a_type(t, path));
        }
        if is_type(p) {
            assert(node_at(t, path.take(path.len() - 1)) == Some(p));
            assert(in_a_type(t, path));
        }
        if let Some((s, _)) = def_pass::opened(source, p) {
            assert(scopes == outer.push(s));
            if scope::in_type(outer) {
                let i = choose|i: int|
                    0 <= i < outer.len() && (#[trigger] outer[i].kind == SymbolKind::Class
                        || outer[i].kind == SymbolKind::Struct);
                assert(scopes[i].kind == outer[i].kind);
            }
            if scope::in_type(scopes) && !is_type(p) {
                let i = choose|i: int|
                    0 <= i < scopes.len() && (#[trigger] scopes[i].kind == SymbolKind::Class
                        || scopes[i].kind == SymbolKind::Struct);
                assert(outer[i].kind == scopes[i].kind);
            }
            if is_type(p) {
                assert(scopes[outer.len() as int].kind == SymbolKind::Class);
            }
        }
    }
}

/// A function symbol of the pass.
proof fn lemma_function_symbol(
    file: Seq<char>,
    source: Seq<char>,
    t: SyntaxTree,
    path: Seq<int>,
    q: Option<Seq<char>>,
    name: Seq<char>,
    at: SyntaxTree,
    v: Visibility,
    is_definition: bool,
    signature: Option<Seq<char>>,
    d: DefinitionView,
)
    requires
        node_at(t, path) is Some,
    ensures
        d == (DefinitionView {
            signature,
            is_definition,
            ..def_pass::function_symbol(
                file,
                at,
                q,
                name,
                scopes_at(source, t, path, Seq::empty()),
                v,
            )
        }) <==> is_function_symbol(
            file,
            t,
            path,
            names_around(source, t, path),
            q,
            name,
            at,
            v,
            is_definition,
            signature,
            d,
        ),
{
    let scopes = scopes_at(source, t, path, Seq::empty());
    let around = names_around(source, t, path);
    lemma_around(source, t, path);
    lemma_scope_kinds(source, t, path);
    lemma_full_name(scopes, q, name);
    let outer = with_qualifier(around, q);
    let parent = scope::qualified_parent(scopes, q);
    reveal_with_fuel(text::join, 2);
    if let Some(x) = q {
        assert(around.push(x).drop_last() =~= around);
        if x.len() > 0 {
            lemma_symbol_names(scopes, x);
            assert(parent == Some(text::join(around.push(x), "::"@)));
        }
    }
    assert(parent == parent_of(outer));
    assert(name.len() == 0 ==> name =~= Seq::empty());
    assert(names::function_kind(name, parent, scope::in_type(scopes) || q is Some)
        == kind_of_function(name, parent, in_a_type(t, path) || q is Some));
}

/// What the node at a path itself defines, in the pass and in words.
proof fn lemma_declares(
    file: Seq<char>,
    source: Seq<char>,
    t: SyntaxTree,
    path: Seq<int>,
    d: DefinitionView,
)
    requires
        node_at(t, path) is Some,
    ensures
        def_pass::own_symbols(
            file,
            source,
            node_at(t, path)->0,
            scopes_at(source, t, path, Seq::empty()),
            visibility_at(source, t, path),
        ).contains(d) <==> declares(file, source, t, path, d),
{
    let n = node_at(t, path)->0;
    let scopes = scopes_at(source, t, path, Seq::empty());
    let around = names_around(source, t, path);
    let v = visibility_at(source, t, path);
    let own = def_pass::own_symbols(file, source, n, scopes, v);
    lemma_around(source, t, path);
    lemma_field(n, FieldName::Name, 0);
    lemma_symbol_names(scopes, d.name);
    if own.len() == 1 && own.contains(d) {
        assert(own[0] == d);
    }
    if own.len() == 1 && own[0] == d {
        assert(own.contains(d));
    }
    match syntax::tag(n) {
        NodeKind::NamespaceDefinition
        | NodeKind::ClassSpecifier
        | NodeKind::StructSpecifier
        | NodeKind::UnionSpecifier
        | NodeKind::EnumSpecifier => {
            lemma_written(
                source,
                n,
                NodeKind::NestedNamespaceSpecifier,
                NodeKind::QualifiedIdentifier,
            );
            lemma_written(source, n, NodeKind::TypeIdentifier, NodeKind::Identifier);
            if let Some(c) = syntax::field_child(n, FieldName::Name) {
                assert(is_field(n, FieldName::Name, syntax::field_from(n, FieldName::Name, 0)));
            }
            assert(naming_node(n) == def_pass::tree_or(names::name_node(n), n));
            assert(opens(source, n, d.name) == opens(source, n, d.name));
        },
        NodeKind::FunctionDefinition => {
            if let Some((q, name)) = names::function_name(source, n) {
                lemma_function_symbol(
                    file,
                    source,
                    t,
                    path,
                    q,
                    name,
                    def_pass::function_name_node(n, names::function_declarator_from(n, 0)),
                    v,
                    true,
                    def_pass::function_head(source, n),
                    d,
                );
            }
        },
        NodeKind::Declaration | NodeKind::FieldDeclaration => {
            lemma_declared_symbols(file, source, t, path, d);
        },
        NodeKind::TypeDefinition => {
            lemma_last_type(n, n.children.len() as int);
        },
        _ => {
            if let Some(c) = syntax::field_child(n, FieldName::Name) {
                assert(is_field(n, FieldName::Name, syntax::field_from(n, FieldName::Name, 0)));
            }
        },
    }
}

/// What a declarator of a declaration declares, in the pass and in words.
proof fn lemma_declarator(
    file: Seq<char>,
    source: Seq<char>,
    t: SyntaxTree,
    path: Seq<int>,
    c: SyntaxTree,
    d: DefinitionView,
)
    requires
        node_at(t, path) is Some,
    ensures
        def_pass::declared_by(
            file,
            source,
            node_at(t, path)->0,
            c,
            scopes_at(source, t, path, Seq::empty()),
            visibility_at(source, t, path),
        ) == Some(d) <==> declarator_declares(file, source, t, path, c, d),
{
    let n = node_at(t, path)->0;
    let scopes = scopes_at(source, t, path, Seq::empty());
    let v = visibility_at(source, t, path);
    lemma_around(source, t, path);
    lemma_scope_kinds(source, t, path);
    let function = match names::function_declarator(c) {
        Some(f) => names::declared_name(source, f),
        None => None,
    };
    match function {
        Some((q, name)) => {
            lemma_function_symbol(
                file,
                source,
                t,
                path,
                q,
                name,
                def_pass::function_name_node(n, names::function_declarator(c)),
                v,
                false,
                Some(syntax::text_of(source, n)),
                d,
            );
        },
        None => {
            if let Some(at) = def_pass::variable_name_node(c) {
                lemma_symbol_names(scopes, syntax::text_of(source, at));
            }
        },
    }
}

/// What a declaration declares, in the pass and in words.
proof fn lemma_declared_symbols(
    file: Seq<char>,
    source: Seq<char>,
    t: SyntaxTree,
    path: Seq<int>,
    d: DefinitionView,
)
    requires
        node_at(t, path) is Some,
    ensures
        def_pass::declared_from(
            file,
            source,
            node_at(t, path)->0,
            0,
            scopes_at(source, t, path, Seq::empty()),
            visibility_at(source, t, path),
        ).contains(d) <==> exists|k: int| #[trigger]
            is_declarator(node_at(t, path)->0, k) && declarator_declares(
                file,
                source,
                t,
                path,
                node_at(t, path)->0.children[k],
                d,
            ),
{
    let n = node_at(t, path)->0;
    let scopes = scopes_at(source, t, path, Seq::empty());
    let v = visibility_at(source, t, path);
    if def_pass::declared_from(file, source, n, 0, scopes, v).contains(d) {
        lemma_declared_kinds(file, source, n, 0, scopes, v, d);
        let k = choose|k: int|
            0 <= k < n.children.len() && !#[trigger] def_pass::is_value(n, k)
                && def_pass::declared_by(file, source, n, n.children[k], scopes, v) == Some(d);
        lemma_declarator(file, source, t, path, n.children[k], d);
        assert(is_declarator(n, k));
    }
    if exists|k: int| #[trigger]
        is_declarator(n, k) && declarator_declares(file, source, t, path, n.children[k], d) {
        let k = choose|k: int| #[trigger]
            is_declarator(n, k) && declarator_declares(file, source, t, path, n.children[k], d);
        lemma_declarator(file, source, t, path, n.children[k], d);
        assert(!def_pass::is_value(n, k));
        lemma_declared_contains(file, source, n, 0, k, scopes, v, d);
    }
}

/// What one declarator declares, the declaration declares.
proof fn lemma_declared_contains(
    file: Seq<char>,
    source: Seq<char>,
    t: SyntaxTree,
    i: int,
    k: int,
    scopes: Seq<ScopeView>,
    v: Visibility,
    d: DefinitionView,
)
    requires
        0 <= i <= k < t.children.len(),
        !def_pass::is_value(t, k),
        def_pass::declared_by(file, source, t, t.children[k], scopes, v) == Some(d),
    ensures
        def_pass::declared_from(file, source, t, i, scopes, v).contains(d),
    decreases k - i,
{
    let rest = def_pass::declared_from(file, source, t, i + 1, scopes, v);
    let own = if def_pass::is_value(t, i) {
        None
    } else {
        def_pass::declared_by(file, source, t, t.children[i], scopes, v)
    };
    if i == k {
        assert(def_pass::one_or_none(own)[0] == d);
        assert(def_pass::one_or_none(own).contains(d));
    } else {
        lemma_declared_contains(file, source, t, i + 1, k, scopes, v, d);
    }
    lemma_contained(def_pass::one_or_none(own), rest, d);
}

/// The definitions of a file are what its nodes define and declare, wherever they stand: each
/// symbol that some node defines is among them, and each of them is defined by some node.
pub proof fn law_definitions_are_those_of_the_nodes(
    file: Seq<char>,
    source: Seq<char>,
    language: Seq<char>,
    t: SyntaxTree,
    mode: ReferenceMode,
    with_context: bool,
    d: DefinitionView,
)
    ensures
        cpp_parser::tree_symbols(
            file,
            source,
            language,
            t,
            mode,
            with_context,
        ).definitions.contains(d) <==> exists|path: Seq<int>| #[trigger]
            declares(file, source, t, path, d),
{
    let s = cpp_parser::tree_symbols(file, source, language, t, mode, with_context);
    if s.definitions.contains(d) {
        let k = choose|k: int| 0 <= k < s.definitions.len() && s.definitions[k] == d;
        let path = lemma_definition_source(file, source, t, Seq::empty(), None, k);
        lemma_declares(file, source, t, path, d);
        assert(declares(file, source, t, path, d));
    }
    if exists|path: Seq<int>| #[trigger] declares(file, source, t, path, d) {
        let path = choose|path: Seq<int>| #[trigger] declares(file, source, t, path, d);
        let n = node_at(t, path)->0;
        lemma_declares(file, source, t, path, d);
        lemma_found_at(file, source, t, path, Seq::empty(), None);
        assert(def_pass::own_symbols(
            file,
            source,
            n,
            scopes_at(source, t, path, Seq::empty()),
            visibility_at(source, t, path),
        ).contains(d));
    }
}

/// Whether the child at a position of a base class clause names a base.
pub open spec fn is_base(source: Seq<char>, t: SyntaxTree, j: int) -> bool {
    let k = syntax::tag(t.children[j]);
    &&& 0 <= j < t.children.len()
    &&& k == NodeKind::TypeIdentifier || k == NodeKind::Identifier || k
        == NodeKind::QualifiedIdentifier || k == NodeKind::TemplateType || k
        == NodeKind::ParameterizedType || k == NodeKind::ScopedTypeIdentifier || k
        == NodeKind::QualifiedTypeIdentifier
    &&& syntax::text_of(source, t.children[j]).len() > 0
}

/// Whether a word of a kind stands in front of a position, behind every base in front of it.
pub open spec fn stands_for_next(
    source: Seq<char>,
    t: SyntaxTree,
    kind: NodeKind,
    i: int,
    j: int,
) -> bool {
    &&& 0 <= i < j <= t.children.len()
    &&& syntax::tag(t.children[i]) == kind
    &&& forall|m: int| i < m < j ==> !#[trigger] is_base(source, t, m)
}

/// Whether `virtual` is written for the base at a position.
pub open spec fn is_virtual_at(source: Seq<char>, t: SyntaxTree, j: int) -> bool {
    exists|i: int| #[trigger] stands_for_next(source, t, NodeKind::Virtual, i, j)
}

/// Whether an access is written for the base at a position: the last access word in front of it,
/// behind every base in front of it. A word that sets no access takes back those before it.
pub open spec fn access_at(
    source: Seq<char>,
    t: SyntaxTree,
    j: int,
    access: Option<Visibility>,
) -> bool {
    ||| exists|i: int| #[trigger]
        stands_for_next(source, t, NodeKind::AccessSpecifier, i, j) && (forall|m: int|
            i < m < j ==> !#[trigger] stands_for_next(
                source,
                t,
                NodeKind::AccessSpecifier,
                m,
                j,
            )) && access == word_sets(syntax::text_of(source, t.children[i]))
    ||| (forall|i: int| !#[trigger] stands_for_next(source, t, NodeKind::AccessSpecifier, i, j))
        && access is None
}

/// Whether the node at a path names a base: an edge from the innermost scope around it to the base,
/// with the access that is written for it, or the visibility in force where none is.
pub open spec fn derives(
    file: Seq<char>,
    source: Seq<char>,
    t: SyntaxTree,
    path: Seq<int>,
    j: int,
    e: InheritEdgeView,
) -> bool {
    let n = node_at(t, path)->0;
    &&& node_at(t, path) is Some
    &&& syntax::tag(n) == NodeKind::BaseClassClause
    &&& is_base(source, n, j)
    &&& e.derived_name == match innermost_scope(t, path) {
        Some(p) => opened_name(source, p),
        None => Seq::empty(),
    }
    &&& e.base_name == syntax::text_of(source, n.children[j])
    &&& e.location == location_in(file, n.children[j])
    &&& e.is_virtual == is_virtual_at(source, n, j)
    &&& exists|a: Option<Visibility>| #[trigger]
        access_at(source, n, j, a) && e.access == match a {
            Some(v) => v,
            None => visibility_at(source, t, path),
        }
}

/// What is written for the base behind a child.
proof fn lemma_words_step(
    source: Seq<char>,
    t: SyntaxTree,
    j: int,
    access: Option<Visibility>,
    is_virtual: bool,
)
    requires
        0 <= j < t.children.len(),
        access_at(source, t, j, access),
        is_virtual == is_virtual_at(source, t, j),
    ensures
        ({
            let c = t.children[j];
            let k = syntax::tag(c);
            let base = is_base(source, t, j);
            let next = if k == NodeKind::AccessSpecifier {
                word_sets(syntax::text_of(source, c))
            } else if base {
                None
            } else {
                access
            };
            &&& access_at(source, t, j + 1, next)
            &&& is_virtual_at(source, t, j + 1) == (k == NodeKind::Virtual || !base && is_virtual)
        }),
{
    let k = syntax::tag(t.children[j]);
    let base = is_base(source, t, j);
    assert forall|kind: NodeKind, i: int| #[trigger]
        stands_for_next(source, t, kind, i, j + 1) implies i == j && k == kind || !base
        && stands_for_next(source, t, kind, i, j) by {
        if i < j {
            assert(!is_base(source, t, j));
        }
    }
    assert forall|kind: NodeKind, i: int| !base && #[trigger] stands_for_next(
        source,
        t,
        kind,
        i,
        j,
    ) implies stands_for_next(source, t, kind, i, j + 1) by {}
    if k == NodeKind::Virtual {
        assert(stands_for_next(source, t, NodeKind::Virtual, j, j + 1));
    } else if !base && is_virtual {
        let i = choose|i: int| #[trigger] stands_for_next(source, t, NodeKind::Virtual, i, j);
        assert(stands_for_next(source, t, NodeKind::Virtual, i, j + 1));
    }
    if k == NodeKind::AccessSpecifier {
        assert(stands_for_next(source, t, NodeKind::AccessSpecifier, j, j + 1));
    } else if !base {
        if exists|i: int| #[trigger] stands_for_next(source, t, NodeKind::AccessSpecifier, i, j) {
            let i = choose|i: int| #[trigger]
                stands_for_next(source, t, NodeKind::AccessSpecifier, i, j) && (forall|m: int|
                    i < m < j ==> !#[trigger] stands_for_next(
                        source,
                        t,
                        NodeKind::AccessSpecifier,
                        m,
                        j,
                    )) && access == word_sets(syntax::text_of(source, t.children[i]));
            assert(stands_for_next(source, t, NodeKind::AccessSpecifier, i, j + 1));
        }
    }
}

/// There is one access that is written for a base.
proof fn lemma_one_access(
    source: Seq<char>,
    t: SyntaxTree,
    j: int,
    a: Option<Visibility>,
    b: Option<Visibility>,
)
    requires
        access_at(source, t, j, a),
        access_at(source, t, j, b),
    ensures
        a == b,
{
}

/// The bases that a base class clause names, in the pass and in words.
proof fn lemma_bases(
    file: Seq<char>,
    source: Seq<char>,
    t: SyntaxTree,
    i: int,
    derived: Seq<char>,
    default: Visibility,
    access: Option<Visibility>,
    is_virtual: bool,
    e: InheritEdgeView,
)
    requires
        0 <= i <= t.children.len(),
        access_at(source, t, i, access),
        is_virtual == is_virtual_at(source, t, i),
    ensures
        def_pass::bases_from(file, source, t, i, derived, default, access, is_virtual).contains(e)
            <==> exists|j: int|
            i <= j && #[trigger] is_base(source, t, j) && e.derived_name == derived && e.base_name
                == syntax::text_of(source, t.children[j]) && e.location == location_in(
                file,
                t.children[j],
            ) && e.is_virtual == is_virtual_at(source, t, j) && exists|a: Option<Visibility>|
                #[trigger]
                access_at(source, t, j, a) && e.access == match a {
                    Some(v) => v,
                    None => default,
                },
    decreases t.children.len() - i,
{
    if i < t.children.len() {
        let c = t.children[i];
        let k = syntax::tag(c);
        let base = is_base(source, t, i);
        lemma_words_step(source, t, i, access, is_virtual);
        let next = if k == NodeKind::AccessSpecifier {
            word_sets(syntax::text_of(source, c))
        } else if base {
            None
        } else {
            access
        };
        let now = k == NodeKind::Virtual || !base && is_virtual;
        assert(def_pass::names_base(k) && syntax::text_of(source, c).len() > 0 <==> base);
        assert(names::access_named(syntax::text_of(source, c)) == word_sets(
            syntax::text_of(source, c),
        ));
        lemma_bases(file, source, t, i + 1, derived, default, next, now, e);
        if base {
            let first = InheritEdgeView {
                derived_name: derived,
                base_name: syntax::text_of(source, c),
                location: def_pass::place(file, c),
                access: match access {
                    Some(a) => a,
                    None => default,
                },
                is_virtual,
            };
            let rest = def_pass::bases_from(
                file,
                source,
                t,
                i + 1,
                derived,
                default,
                None,
                false,
            );
            let all = def_pass::bases_from(
                file,
                source,
                t,
                i,
                derived,
                default,
                access,
                is_virtual,
            );
            assert(all == seq![first] + rest);
            lemma_contained(seq![first], rest, e);
            if all.contains(e) {
                let m = choose|m: int| 0 <= m < all.len() && all[m] == e;
                if m == 0 {
                    assert(is_base(source, t, i));
                    assert(access_at(source, t, i, access));
                } else {
                    assert(rest[m - 1] == e);
                    assert(rest.contains(e));
                }
            }
            assert forall|a: Option<Visibility>| #[trigger] access_at(source, t, i, a) implies a
                == access by {
                lemma_one_access(source, t, i, a, access);
            }
            assert(seq![first][0] == first);
            assert(e == first ==> seq![first].contains(e));
        }
    }
}

/// Where an inheritance edge of a tree comes from.
proof fn lemma_inherit_source(
    file: Seq<char>,
    source: Seq<char>,
    t: SyntaxTree,
    scopes: Seq<ScopeView>,
    visibility: Option<Visibility>,
    k: int,
) -> (path: Seq<int>)
    requires
        0 <= k < def_pass::found_in(file, source, t, scopes, visibility).inherits.len(),
    ensures
        ({
            let e = def_pass::found_in(file, source, t, scopes, visibility).inherits[k];
            &&& node_at(t, path) is Some
            &&& !is_name(syntax::tag(node_at(t, path)->0))
            &&& def_pass::own_bases(
                file,
                source,
                node_at(t, path)->0,
                scopes_at(source, t, path, scopes),
                def_pass::in_force(visibility_before(source, t, path, visibility)),
            ).contains(e)
        }),
    decreases t, t.children.len() + 1,
{
    let own = def_pass::own_bases(file, source, t, scopes, def_pass::in_force(visibility));
    let below = ref_pass::scopes_below(source, t, scopes);
    let inner_visibility = match def_pass::opened(source, t) {
        Some((_, w)) => Some(w),
        None => def_pass::access_after(source, t, visibility),
    };
    if k < own.len() {
        assert(own.contains(own[k]));
        Seq::empty()
    } else {
        assert(inner_visibility == visibility_in(source, t, visibility));
        lemma_inherit_source_from(
            file,
            source,
            t,
            0,
            below,
            inner_visibility,
            inner_visibility,
            k - own.len(),
        )
    }
}

/// Where an inheritance edge of the children of a tree comes from.
proof fn lemma_inherit_source_from(
    file: Seq<char>,
    source: Seq<char>,
    t: SyntaxTree,
    i: int,
    scopes: Seq<ScopeView>,
    start: Option<Visibility>,
    visibility: Option<Visibility>,
    k: int,
) -> (path: Seq<int>)
    requires
        !is_name(syntax::tag(t)),
        0 <= i <= t.children.len(),
        visibility == visibility_behind_first(source, t, i, start),
        0 <= k < def_pass::found_from(file, source, t, i, scopes, visibility).inherits.len(),
    ensures
        ({
            let e = def_pass::found_from(file, source, t, i, scopes, visibility).inherits[k];
            let c = t.children[path[0]];
            let rest = path.skip(1);
            let before = visibility_behind_first(source, t, path[0], start);
            &&& path.len() > 0
            &&& 0 <= path[0] < t.children.len()
            &&& node_at(c, rest) is Some
            &&& !is_name(syntax::tag(node_at(c, rest)->0))
            &&& def_pass::own_bases(
                file,
                source,
                node_at(c, rest)->0,
                scopes_at(source, c, rest, scopes),
                def_pass::in_force(visibility_before(source, c, rest, before)),
            ).contains(e)
        }),
    decreases t, t.children.len() - i,
{
    let first = def_pass::found_in(file, source, t.children[i], scopes, visibility);
    if k < first.inherits.len() {
        let rest = lemma_inherit_source(file, source, t.children[i], scopes, visibility, k);
        let path = seq![i] + rest;
        assert(path.skip(1) =~= rest);
        path
    } else {
        lemma_visibility_behind(file, source, t.children[i], scopes, visibility);
        lemma_inherit_source_from(
            file,
            source,
            t,
            i + 1,
            scopes,
            start,
            first.visibility,
            k - first.inherits.len(),
        )
    }
}

/// What the node at a path derives from, in the pass and in words.
proof fn lemma_derives(
    file: Seq<char>,
    source: Seq<char>,
    t: SyntaxTree,
    path: Seq<int>,
    e: InheritEdgeView,
)
    requires
        node_at(t, path) is Some,
    ensures
        def_pass::own_bases(
            file,
            source,
            node_at(t, path)->0,
            scopes_at(source, t, path, Seq::empty()),
            visibility_at(source, t, path),
        ).contains(e) <==> exists|j: int| #[trigger] derives(file, source, t, path, j, e),
{
    let n = node_at(t, path)->0;
    let scopes = scopes_at(source, t, path, Seq::empty());
    let v = visibility_at(source, t, path);
    lemma_scope_kinds(source, t, path);
    if syntax::tag(n) == NodeKind::BaseClassClause {
        let derived = if scopes.len() > 0 {
            scopes.last().name
        } else {
            Seq::empty()
        };
        lemma_bases(file, source, n, 0, derived, v, None, false, e);
        if def_pass::own_bases(file, source, n, scopes, v).contains(e) {
            let j = choose|j: int|
                0 <= j && #[trigger] is_base(source, n, j) && e.derived_name == derived
                    && e.base_name == syntax::text_of(source, n.children[j]) && e.location
                    == location_in(file, n.children[j]) && e.is_virtual == is_virtual_at(
                    source,
                    n,
                    j,
                ) && exists|a: Option<Visibility>| #[trigger]
                    access_at(source, n, j, a) && e.access == match a {
                        Some(w) => w,
                        None => v,
                    };
            assert(derives(file, source, t, path, j, e));
        }
        if exists|j: int| #[trigger] derives(file, source, t, path, j, e) {
            let j = choose|j: int| #[trigger] derives(file, source, t, path, j, e);
            assert(is_base(source, n, j));
        }
    }
}

/// The inheritance edges of a file are those that its base class clauses name, wherever they
/// stand: each base is among them, and each of them is a base.
pub proof fn law_inheritance_is_that_of_the_clauses(
    file: Seq<char>,
    source: Seq<char>,
    language: Seq<char>,
    t: SyntaxTree,
    mode: ReferenceMode,
    with_context: bool,
    e: InheritEdgeView,
)
    ensures
        cpp_parser::tree_symbols(file, source, language, t, mode, with_context).inherits.contains(e)
            <==> exists|path: Seq<int>, j: int| #[trigger]
            derives(file, source, t, path, j, e),
{
    let s = cpp_parser::tree_symbols(file, source, language, t, mode, with_context);
    if s.inherits.contains(e) {
        let k = choose|k: int| 0 <= k < s.inherits.len() && s.inherits[k] == e;
        let path = lemma_inherit_source(file, source, t, Seq::empty(), None, k);
        lemma_derives(file, source, t, path, e);
    }
    if exists|path: Seq<int>, j: int| #[trigger] derives(file, source, t, path, j, e) {
        let (path, j) = choose|path: Seq<int>, j: int| #[trigger]
            derives(file, source, t, path, j, e);
        let n = node_at(t, path)->0;
        lemma_derives(file, source, t, path, e);
        lemma_found_at(file, source, t, path, Seq::empty(), None);
        assert(def_pass::own_bases(
            file,
            source,
            n,
            scopes_at(source, t, path, Seq::empty()),
            visibility_at(source, t, path),
        ).contains(e));
    }
}

/// Whether a kind of node is a declaration, which can declare several symbols.
pub open spec fn is_declaration(k: NodeKind) -> bool {
    k == NodeKind::Declaration || k == NodeKind::FieldDeclaration
}

/// Whether one place stands before another in reading order: its node does, or it is an earlier
/// declarator of the same declaration.
pub open spec fn comes_before(a: (Seq<int>, int), b: (Seq<int>, int)) -> bool {
    reads_before(a.0, b.0) || a.0 == b.0 && a.1 < b.1
}

/// Whether a symbol is declared at a place: by the declarator at a position of a declaration, or by
/// any other node as such.
pub open spec fn declares_at(
    file: Seq<char>,
    source: Seq<char>,
    t: SyntaxTree,
    a: (Seq<int>, int),
    d: DefinitionView,
) -> bool {
    let n = node_at(t, a.0)->0;
    node_at(t, a.0) is Some && if is_declaration(syntax::tag(n)) {
        is_declarator(n, a.1) && declarator_declares(file, source, t, a.0, n.children[a.1], d)
    } else {
        a.1 == 0 && declares(file, source, t, a.0, d)
    }
}

/// Whether a node itself gives a symbol, as the pass knows it.
spec fn gives(
    file: Seq<char>,
    source: Seq<char>,
    n: SyntaxTree,
    scopes: Seq<ScopeView>,
    v: Visibility,
    k: int,
    d: DefinitionView,
) -> bool {
    if is_declaration(syntax::tag(n)) {
        0 <= k < n.children.len() && !def_pass::is_value(n, k) && def_pass::declared_by(
            file,
            source,
            n,
            n.children[k],
            scopes,
            v,
        ) == Some(d)
    } else {
        k == 0 && def_pass::own_symbols(file, source, n, scopes, v).contains(d)
    }
}

/// Whether a symbol comes from a place below a node, as the pass knows it.
spec fn comes_from(
    file: Seq<char>,
    source: Seq<char>,
    t: SyntaxTree,
    scopes: Seq<ScopeView>,
    visibility: Option<Visibility>,
    a: (Seq<int>, int),
    d: DefinitionView,
) -> bool {
    node_at(t, a.0) is Some && gives(
        file,
        source,
        node_at(t, a.0)->0,
        scopes_at(source, t, a.0, scopes),
        def_pass::in_force(visibility_before(source, t, a.0, visibility)),
        a.1,
        d,
    )
}

/// Whether a symbol comes from a place below a child of a node, from a position on.
spec fn comes_from_child(
    file: Seq<char>,
    source: Seq<char>,
    t: SyntaxTree,
    i: int,
    scopes: Seq<ScopeView>,
    start: Option<Visibility>,
    a: (Seq<int>, int),
    d: DefinitionView,
) -> bool {
    a.0.len() > 0 && i <= a.0[0] < t.children.len() && comes_from(
        file,
        source,
        t.children[a.0[0]],
        scopes,
        visibility_behind_first(source, t, a.0[0], start),
        (a.0.skip(1), a.1),
        d,
    )
}

/// The declarators of a declaration, in order.
proof fn lemma_declarators(
    file: Seq<char>,
    source: Seq<char>,
    t: SyntaxTree,
    i: int,
    scopes: Seq<ScopeView>,
    v: Visibility,
) -> (at: Seq<int>)
    requires
        0 <= i,
        is_declaration(syntax::tag(t)),
    ensures
        ({
            let all = def_pass::declared_from(file, source, t, i, scopes, v);
            &&& at.len() == all.len()
            &&& forall|x: int|
                0 <= x < at.len() ==> i <= #[trigger] at[x] && gives(
                    file,
                    source,
                    t,
                    scopes,
                    v,
                    at[x],
                    all[x],
                )
            &&& forall|x: int, y: int| 0 <= x < y < at.len() ==> #[trigger] at[x] < #[trigger] at[y]
        }),
    decreases t.children.len() - i,
{
    if i >= t.children.len() {
        Seq::empty()
    } else {
        let own = if def_pass::is_value(t, i) {
            None
        } else {
            def_pass::declared_by(file, source, t, t.children[i], scopes, v)
        };
        let rest = lemma_declarators(file, source, t, i + 1, scopes, v);
        let later = def_pass::declared_from(file, source, t, i + 1, scopes, v);
        let all = def_pass::declared_from(file, source, t, i, scopes, v);
        match own {
            Some(d) => {
                let at = seq![i] + rest;
                assert(all =~= seq![d] + later);
                assert forall|x: int| 0 <= x < at.len() implies i <= #[trigger] at[x] && gives(
                    file,
                    source,
                    t,
                    scopes,
                    v,
                    at[x],
                    all[x],
                ) by {
                    if x > 0 {
                        assert(at[x] == rest[x - 1]);
                        assert(all[x] == later[x - 1]);
                    }
                }
                assert forall|x: int, y: int| 0 <= x < y < at.len() implies #[trigger] at[x]
                    < #[trigger] at[y] by {
                    assert(at[y] == rest[y - 1]);
                    if x > 0 {
                        assert(at[x] == rest[x - 1]);
                    }
                }
                at
            },
            None => {
                assert(all =~= later);
                rest
            },
        }
    }
}

/// The symbols that a node itself gives, in order.
proof fn lemma_own_places(
    file: Seq<char>,
    source: Seq<char>,
    t: SyntaxTree,
    scopes: Seq<ScopeView>,
    v: Visibility,
) -> (at: Seq<int>)
    ensures
        ({
            let all = def_pass::own_symbols(file, source, t, scopes, v);
            &&& at.len() == all.len()
            &&& forall|x: int|
                0 <= x < at.len() ==> gives(file, source, t, scopes, v, #[trigger] at[x], all[x])
            &&& forall|x: int, y: int| 0 <= x < y < at.len() ==> #[trigger] at[x] < #[trigger] at[y]
        }),
{
    let all = def_pass::own_symbols(file, source, t, scopes, v);
    if is_declaration(syntax::tag(t)) {
        lemma_declarators(file, source, t, 0, scopes, v)
    } else {
        assert(all.len() <= 1);
        let at = Seq::new(all.len(), |x: int| 0int);
        assert forall|x: int| 0 <= x < at.len() implies gives(
            file,
            source,
            t,
            scopes,
            v,
            #[trigger] at[x],
            all[x],
        ) by {
            assert(all.contains(all[x]));
        }
        at
    }
}

/// Where the symbols of a tree come from, in order.
proof fn lemma_places(
    file: Seq<char>,
    source: Seq<char>,
    t: SyntaxTree,
    scopes: Seq<ScopeView>,
    visibility: Option<Visibility>,
) -> (at: Seq<(Seq<int>, int)>)
    ensures
        ({
            let all = def_pass::found_in(file, source, t, scopes, visibility).definitions;
            &&& at.len() == all.len()
            &&& forall|x: int|
                0 <= x < at.len() ==> comes_from(
                    file,
                    source,
                    t,
                    scopes,
                    visibility,
                    #[trigger] at[x],
                    all[x],
                )
            &&& forall|x: int, y: int|
                0 <= x < y < at.len() ==> comes_before(#[trigger] at[x], #[trigger] at[y])
        }),
    decreases t, t.children.len() + 1,
{
    let all = def_pass::found_in(file, source, t, scopes, visibility).definitions;
    if def_pass::is_leaf(t) {
        Seq::empty()
    } else {
        let v = def_pass::in_force(visibility);
        let own = def_pass::own_symbols(file, source, t, scopes, v);
        let below = ref_pass::scopes_below(source, t, scopes);
        let inner_visibility = match def_pass::opened(source, t) {
            Some((_, w)) => Some(w),
            None => def_pass::access_after(source, t, visibility),
        };
        assert(inner_visibility == visibility_in(source, t, visibility));
        let inner = def_pass::found_from(file, source, t, 0, below, inner_visibility).definitions;
        assert(all == own + inner);
        let here = lemma_own_places(file, source, t, scopes, v);
        let later = lemma_places_from(
            file,
            source,
            t,
            0,
            below,
            inner_visibility,
            inner_visibility,
        );
        let root = Seq::<int>::empty();
        let at = Seq::new(here.len(), |x: int| (root, here[x])) + later;
        let n = here.len() as int;
        assert forall|x: int| 0 <= x < at.len() implies comes_from(
            file,
            source,
            t,
            scopes,
            visibility,
            #[trigger] at[x],
            all[x],
        ) by {
            if x < n {
                assert(at[x] == (root, here[x]));
                assert(all[x] == own[x]);
                assert(gives(file, source, t, scopes, v, here[x], own[x]));
            } else {
                assert(at[x] == later[x - n]);
                assert(all[x] == inner[x - n]);
                assert(comes_from_child(
                    file,
                    source,
                    t,
                    0,
                    below,
                    inner_visibility,
                    later[x - n],
                    inner[x - n],
                ));
            }
        }
        assert forall|x: int, y: int| 0 <= x < y < at.len() implies comes_before(
            #[trigger] at[x],
            #[trigger] at[y],
        ) by {
            if y < n {
                assert(here[x] < here[y]);
            } else {
                assert(at[y] == later[y - n]);
                assert(comes_from_child(
                    file,
                    source,
                    t,
                    0,
                    below,
                    inner_visibility,
                    later[y - n],
                    inner[y - n],
                ));
                if x >= n {
                    assert(at[x] == later[x - n]);
                }
            }
        }
        at
    }
}

/// Where the symbols of the children of a tree come from, in order.
proof fn lemma_places_from(
    file: Seq<char>,
    source: Seq<char>,
    t: SyntaxTree,
    i: int,
    scopes: Seq<ScopeView>,
    start: Option<Visibility>,
    visibility: Option<Visibility>,
) -> (at: Seq<(Seq<int>, int)>)
    requires
        0 <= i <= t.children.len(),
        visibility == visibility_behind_first(source, t, i, start),
    ensures
        ({
            let all = def_pass::found_from(file, source, t, i, scopes, visibility).definitions;
            &&& at.len() == all.len()
            &&& forall|x: int|
                0 <= x < at.len() ==> comes_from_child(
                    file,
                    source,
                    t,
                    i,
                    scopes,
                    start,
                    #[trigger] at[x],
                    all[x],
                )
            &&& forall|x: int, y: int|
                0 <= x < y < at.len() ==> comes_before(#[trigger] at[x], #[trigger] at[y])
        }),
    decreases t, t.children.len() - i,
{
    let all = def_pass::found_from(file, source, t, i, scopes, visibility).definitions;
    if i >= t.children.len() {
        Seq::empty()
    } else {
        let c = t.children[i];
        let first = def_pass::found_in(file, source, c, scopes, visibility);
        let here = lemma_places(file, source, c, scopes, visibility);
        lemma_visibility_behind(file, source, c, scopes, visibility);
        let later = lemma_places_from(file, source, t, i + 1, scopes, start, first.visibility);
        let rest = def_pass::found_from(file, source, t, i + 1, scopes, first.visibility).definitions;
        let at = Seq::new(here.len(), |x: int| (seq![i] + here[x].0, here[x].1)) + later;
        let n = here.len() as int;
        assert forall|x: int| 0 <= x < at.len() implies comes_from_child(
            file,
            source,
            t,
            i,
            scopes,
            start,
            #[trigger] at[x],
            all[x],
        ) by {
            if x < n {
                assert(at[x] == (seq![i] + here[x].0, here[x].1));
                assert(at[x].0.skip(1) =~= here[x].0);
                assert(all[x] == first.definitions[x]);
                assert((at[x].0.skip(1), at[x].1) == here[x]);
            } else {
                assert(at[x] == later[x - n]);
                assert(all[x] == rest[x - n]);
            }
        }
        assert forall|x: int, y: int| 0 <= x < y < at.len() implies comes_before(
            #[trigger] at[x],
            #[trigger] at[y],
        ) by {
            if y < n {
                assert(at[x].0.skip(1) =~= here[x].0);
                assert(at[y].0.skip(1) =~= here[y].0);
                assert(comes_before(here[x], here[y]));
            } else {
                assert(at[y] == later[y - n]);
                assert(comes_from_child(
                    file,
                    source,
                    t,
                    i + 1,
                    scopes,
                    start,
                    later[y - n],
                    rest[y - n],
                ));
                if x >= n {
                    assert(at[x] == later[x - n]);
                } else {
                    assert(at[x].0[0] == i);
                }
            }
        }
        at
    }
}

/// The definitions of a file stand in reading order, each at a place of its own: none is listed
/// before one that is declared earlier, and no declarator is listed twice.
pub proof fn law_definitions_stand_in_reading_order(
    file: Seq<char>,
    source: Seq<char>,
    language: Seq<char>,
    t: SyntaxTree,
    mode: ReferenceMode,
    with_context: bool,
) -> (at: Seq<(Seq<int>, int)>)
    ensures
        ({
            let all = cpp_parser::tree_symbols(
                file,
                source,
                language,
                t,
                mode,
                with_context,
            ).definitions;
            &&& at.len() == all.len()
            &&& forall|x: int|
                0 <= x < at.len() ==> declares_at(file, source, t, #[trigger] at[x], all[x])
            &&& forall|x: int, y: int|
                0 <= x < y < at.len() ==> comes_before(#[trigger] at[x], #[trigger] at[y])
        }),
{
    let all = cpp_parser::tree_symbols(file, source, language, t, mode, with_context).definitions;
    let at = lemma_places(file, source, t, Seq::empty(), None);
    assert forall|x: int| 0 <= x < at.len() implies declares_at(
        file,
        source,
        t,
        #[trigger] at[x],
        all[x],
    ) by {
        let n = node_at(t, at[x].0)->0;
        assert(comes_from(file, source, t, Seq::empty(), None, at[x], all[x]));
        if is_declaration(syntax::tag(n)) {
            lemma_declarator(file, source, t, at[x].0, n.children[at[x].1], all[x]);
        } else {
            lemma_declares(file, source, t, at[x].0, all[x]);
        }
    }
    at
}

/// Whether a call edge comes from the call at a path, as the pass knows it.
spec fn edge_from(
    env: RefEnv,
    t: SyntaxTree,
    scopes: Seq<ScopeView>,
    function: Option<Seq<char>>,
    path: Seq<int>,
    edge: CallEdgeView,
) -> bool {
    let n = node_at(t, path)->0;
    &&& node_at(t, path) is Some
    &&& syntax::tag(n) == NodeKind::CallExpression
    &&& n.children.len() > 0
    &&& ref_pass::callee_name(env.source, n.children[0]) == Some(edge.callee_name)
    &&& edge.callee_name.len() > 0
    &&& edge.caller_name == def_pass::name_or_empty(
        function_at(env.source, t, path, scopes, function),
    )
    &&& edge.location == def_pass::place(env.file, n.children[0])
}

/// Whether a reference comes from the node at a path.
spec fn use_from(env: RefEnv, t: SyntaxTree, path: Seq<int>, r: ReferenceView) -> bool {
    node_at(t, path) is Some && uses_node(env.file, env.source, node_at(t, path)->0, env.mode, r)
}

/// Whether paths stand in reading order, none twice.
pub open spec fn in_reading_order(at: Seq<Seq<int>>) -> bool {
    forall|x: int, y: int|
        0 <= x < y < at.len() ==> reads_before(#[trigger] at[x], #[trigger] at[y])
}

/// Paths below the child at a position, seen from its parent.
spec fn below_child(i: int, at: Seq<Seq<int>>) -> Seq<Seq<int>> {
    at.map_values(|p: Seq<int>| seq![i] + p)
}

/// Whether paths lead through children from a position on.
spec fn from_child(i: int, at: Seq<Seq<int>>) -> bool {
    forall|x: int| 0 <= x < at.len() ==> (#[trigger] at[x]).len() > 0 && at[x][0] >= i
}

/// Paths below a child and paths below later children stand in reading order together.
proof fn lemma_children_in_order(i: int, here: Seq<Seq<int>>, later: Seq<Seq<int>>)
    requires
        in_reading_order(here),
        in_reading_order(later),
        from_child(i + 1, later),
    ensures
        in_reading_order(below_child(i, here) + later),
        from_child(i, below_child(i, here) + later),
{
    let first = below_child(i, here);
    let at = first + later;
    let n = here.len() as int;
    assert forall|x: int| 0 <= x < at.len() implies (#[trigger] at[x]).len() > 0 && at[x][0]
        >= i by {
        if x >= n {
            assert(at[x] == later[x - n]);
        }
    }
    assert forall|x: int, y: int| 0 <= x < y < at.len() implies reads_before(
        #[trigger] at[x],
        #[trigger] at[y],
    ) by {
        if y < n {
            assert(at[x].skip(1) =~= here[x]);
            assert(at[y].skip(1) =~= here[y]);
        } else {
            assert(at[y] == later[y - n]);
            if x >= n {
                assert(at[x] == later[x - n]);
            } else {
                assert(at[x][0] == i);
            }
        }
    }
}

/// A node stands before all that is below it.
proof fn lemma_node_first(own: nat, later: Seq<Seq<int>>)
    requires
        own <= 1,
        in_reading_order(later),
        from_child(0, later),
    ensures
        in_reading_order(Seq::new(own, |x: int| Seq::<int>::empty()) + later),
{
    let at = Seq::new(own, |x: int| Seq::<int>::empty()) + later;
    assert forall|x: int, y: int| 0 <= x < y < at.len() implies reads_before(
        #[trigger] at[x],
        #[trigger] at[y],
    ) by {
        assert(at[y] == later[y - own]);
        if x >= own {
            assert(at[x] == later[x - own]);
        }
    }
}

/// Where the calls and references of a tree come from, in order.
proof fn lemma_use_places(
    env: RefEnv,
    t: SyntaxTree,
    scopes: Seq<ScopeView>,
    function: Option<Seq<char>>,
    handled: Set<(usize, usize)>,
) -> (r: (Seq<Seq<int>>, Seq<Seq<int>>))
    ensures
        ({
            let u = ref_pass::uses_in(env, t, scopes, function, handled);
            &&& r.0.len() == u.calls.len()
            &&& r.1.len() == u.references.len()
            &&& forall|x: int|
                0 <= x < r.0.len() ==> edge_from(
                    env,
                    t,
                    scopes,
                    function,
                    #[trigger] r.0[x],
                    u.calls[x],
                )
            &&& forall|x: int|
                0 <= x < r.1.len() ==> use_from(env, t, #[trigger] r.1[x], u.references[x])
            &&& in_reading_order(r.0)
            &&& in_reading_order(r.1)
        }),
    decreases t, t.children.len() + 1,
{
    let u = ref_pass::uses_in(env, t, scopes, function, handled);
    if def_pass::is_leaf(t) {
        (Seq::empty(), Seq::new(u.references.len(), |x: int| Seq::<int>::empty()))
    } else {
        let own = if syntax::tag(t) == NodeKind::CallExpression {
            ref_pass::call_uses(env, t, function, handled)
        } else {
            ref_pass::no_uses(handled)
        };
        let s = ref_pass::scopes_below(env.source, t, scopes);
        let f = ref_pass::function_below(env.source, t, scopes, function);
        let inner = ref_pass::uses_from(env, t, 0, s, f, own.handled);
        let (calls, uses) = lemma_use_places_from(env, t, 0, s, f, own.handled);
        lemma_node_first(own.calls.len(), calls);
        lemma_node_first(own.references.len(), uses);
        let (n, m) = (own.calls.len() as int, own.references.len() as int);
        let a = Seq::new(own.calls.len(), |x: int| Seq::<int>::empty()) + calls;
        let b = Seq::new(own.references.len(), |x: int| Seq::<int>::empty()) + uses;
        assert forall|x: int| 0 <= x < a.len() implies edge_from(
            env,
            t,
            scopes,
            function,
            #[trigger] a[x],
            u.calls[x],
        ) by {
            if x >= n {
                assert(a[x] == calls[x - n]);
                assert(u.calls[x] == inner.calls[x - n]);
                assert(edge_from(
                    env,
                    t.children[calls[x - n][0]],
                    s,
                    f,
                    calls[x - n].skip(1),
                    inner.calls[x - n],
                ));
            }
        }
        assert forall|x: int| 0 <= x < b.len() implies use_from(
            env,
            t,
            #[trigger] b[x],
            u.references[x],
        ) by {
            if x >= m {
                assert(b[x] == uses[x - m]);
                assert(u.references[x] == inner.references[x - m]);
            } else {
                lemma_called_name_node(t.children[0]);
                lemma_callee_name(env.source, t.children[0], own.references[0].name);
            }
        }
        (a, b)
    }
}

/// Where the calls and references of the children of a tree come from, in order.
proof fn lemma_use_places_from(
    env: RefEnv,
    t: SyntaxTree,
    i: int,
    scopes: Seq<ScopeView>,
    function: Option<Seq<char>>,
    handled: Set<(usize, usize)>,
) -> (r: (Seq<Seq<int>>, Seq<Seq<int>>))
    requires
        !is_name(syntax::tag(t)),
        0 <= i,
    ensures
        ({
            let u = ref_pass::uses_from(env, t, i, scopes, function, handled);
            &&& r.0.len() == u.calls.len()
            &&& r.1.len() == u.references.len()
            &&& forall|x: int|
                0 <= x < r.0.len() ==> (#[trigger] r.0[x])[0] < t.children.len() && edge_from(
                    env,
                    t.children[r.0[x][0]],
                    scopes,
                    function,
                    r.0[x].skip(1),
                    u.calls[x],
                )
            &&& forall|x: int|
                0 <= x < r.1.len() ==> use_from(env, t, #[trigger] r.1[x], u.references[x])
            &&& in_reading_order(r.0)
            &&& in_reading_order(r.1)
            &&& from_child(i, r.0)
            &&& from_child(i, r.1)
        }),
    decreases t, t.children.len() - i,
{
    if i >= t.children.len() {
        (Seq::empty(), Seq::empty())
    } else {
        let u = ref_pass::uses_from(env, t, i, scopes, function, handled);
        let c = t.children[i];
        let first = ref_pass::uses_in(env, c, scopes, function, handled);
        let rest = ref_pass::uses_from(env, t, i + 1, scopes, function, first.handled);
        let (p, q) = lemma_use_places(env, c, scopes, function, handled);
        let (v, w) = lemma_use_places_from(env, t, i + 1, scopes, function, first.handled);
        lemma_children_in_order(i, p, v);
        lemma_children_in_order(i, q, w);
        let (n, m) = (p.len() as int, q.len() as int);
        let a = below_child(i, p) + v;
        let b = below_child(i, q) + w;
        assert forall|x: int| 0 <= x < a.len() implies (#[trigger] a[x])[0] < t.children.len()
            && edge_from(
            env,
            t.children[a[x][0]],
            scopes,
            function,
            a[x].skip(1),
            u.calls[x],
        ) by {
            if x < n {
                assert(a[x].skip(1) =~= p[x]);
                assert(a[x][0] == i);
                assert(u.calls[x] == first.calls[x]);
            } else {
                assert(a[x] == v[x - n]);
                assert(u.calls[x] == rest.calls[x - n]);
            }
        }
        assert forall|x: int| 0 <= x < b.len() implies use_from(
            env,
            t,
            #[trigger] b[x],
            u.references[x],
        ) by {
            if x < m {
                assert(b[x].skip(1) =~= q[x]);
                assert(b[x][0] == i);
                assert(u.references[x] == first.references[x]);
                assert(use_from(env, c, q[x], first.references[x]));
            } else {
                assert(b[x] == w[x - m]);
                assert(u.references[x] == rest.references[x - m]);
            }
        }
        (a, b)
    }
}

/// Whether a call edge is that of the call at a path.
pub open spec fn is_edge_of(
    file: Seq<char>,
    source: Seq<char>,
    t: SyntaxTree,
    path: Seq<int>,
    edge: CallEdgeView,
) -> bool {
    let n = node_at(t, path)->0;
    &&& node_at(t, path) is Some
    &&& syntax::tag(n) == NodeKind::CallExpression
    &&& n.children.len() > 0
    &&& calls_name(source, n.children[0], edge.callee_name)
    &&& edge.caller_name == function_around(source, t, path)
    &&& edge.location == location_in(file, n.children[0])
}

/// The calls of a file stand in reading order, each once, and so do its references: no call and no
/// use is listed twice, and none before one that is written earlier.
pub proof fn law_uses_stand_in_reading_order(
    file: Seq<char>,
    source: Seq<char>,
    language: Seq<char>,
    t: SyntaxTree,
    mode: ReferenceMode,
    with_context: bool,
) -> (r: (Seq<Seq<int>>, Seq<Seq<int>>))
    ensures
        ({
            let s = cpp_parser::tree_symbols(file, source, language, t, mode, with_context);
            &&& r.0.len() == s.calls.len()
            &&& r.1.len() == s.references.len()
            &&& forall|x: int|
                0 <= x < r.0.len() ==> is_edge_of(file, source, t, #[trigger] r.0[x], s.calls[x])
            &&& forall|x: int|
                0 <= x < r.1.len() ==> node_at(t, #[trigger] r.1[x]) is Some && uses_node(
                    file,
                    source,
                    node_at(t, r.1[x])->0,
                    mode,
                    s.references[x],
                )
            &&& in_reading_order(r.0)
            &&& in_reading_order(r.1)
        }),
{
    let s = cpp_parser::tree_symbols(file, source, language, t, mode, with_context);
    let definitions = def_pass::found_in(file, source, t, Seq::empty(), None).definitions;
    let env = cpp_parser::reference_env(file, source, definitions, mode, with_context);
    let (a, b) = lemma_use_places(env, t, Seq::empty(), None, Set::empty());
    assert forall|x: int| 0 <= x < a.len() implies is_edge_of(
        file,
        source,
        t,
        #[trigger] a[x],
        s.calls[x],
    ) by {
        assert(edge_from(env, t, Seq::empty(), None, a[x], s.calls[x]));
        lemma_around(source, t, a[x]);
        lemma_callee_name(source, node_at(t, a[x])->0.children[0], s.calls[x].callee_name);
    }
    assert forall|x: int| 0 <= x < b.len() implies node_at(t, #[trigger] b[x]) is Some && uses_node(
        file,
        source,
        node_at(t, b[x])->0,
        mode,
        s.references[x],
    ) by {
        assert(use_from(env, t, b[x], s.references[x]));
    }
    (a, b)
}

} // verus!
