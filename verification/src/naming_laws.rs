//! What holds of the names that declarators declare, and of the nodes that hold them.
use crate::def_pass;
use crate::names;
use crate::syntax::{FieldName, NodeKind, SyntaxTree};
use crate::syntax;
use crate::text;
use crate::tree_laws::{is_field, lemma_field};
use vstd::prelude::*;

verus! {

/// The node at the end of a path of child positions.
pub open spec fn reached(t: SyntaxTree, path: Seq<int>) -> Option<SyntaxTree>
    decreases path.len(),
{
    if path.len() == 0 {
        Some(t)
    } else if 0 <= path[0] < t.children.len() {
        reached(t.children[path[0]], path.skip(1))
    } else {
        None
    }
}

/// Whether no child of a node has a field.
pub open spec fn lacks(t: SyntaxTree, field: FieldName) -> bool {
    forall|i: int| 0 <= i < t.children.len() ==> !(#[trigger] t.children[i]).roles.has(field)
}

/// What a node finds under a field it has, and under one it lacks.
proof fn lemma_finds(t: SyntaxTree, field: FieldName)
    ensures
        forall|j: int| #[trigger]
            is_field(t, field, j) ==> syntax::field_child(t, field) == Some(t.children[j]),
        lacks(t, field) <==> syntax::field_child(t, field) is None,
        syntax::field_child(t, field) is Some ==> exists|j: int| #[trigger]
            is_field(t, field, j) && syntax::field_child(t, field) == Some(t.children[j]),
{
    lemma_field(t, field, 0);
    let j = syntax::field_from(t, field, 0);
    if j < t.children.len() {
        assert(is_field(t, field, j));
        assert(t.children[j].roles.has(field));
    } else if !lacks(t, field) {
        let k = choose|k: int| 0 <= k < t.children.len() && (#[trigger] t.children[k]).roles.has(field);
        lemma_has_first(t, field, k);
    }
}

/// Where a child has a field there is a first one.
proof fn lemma_has_first(t: SyntaxTree, field: FieldName, k: int)
    requires
        0 <= k < t.children.len(),
        t.children[k].roles.has(field),
    ensures
        exists|j: int| is_field(t, field, j),
    decreases k,
{
    if exists|i: int| 0 <= i < k && (#[trigger] t.children[i]).roles.has(field) {
        let i = choose|i: int| 0 <= i < k && (#[trigger] t.children[i]).roles.has(field);
        lemma_has_first(t, field, i);
    } else {
        assert(is_field(t, field, k));
    }
}

/// Whether a kind of node is a name in itself.
pub open spec fn is_name_itself(k: NodeKind) -> bool {
    match k {
        NodeKind::Identifier
        | NodeKind::FieldIdentifier
        | NodeKind::TypeIdentifier
        | NodeKind::DestructorName => true,
        _ => false,
    }
}

/// Whether a kind of node wraps another declarator.
pub open spec fn is_wrapper(k: NodeKind) -> bool {
    match k {
        NodeKind::FunctionDeclarator
        | NodeKind::ArrayDeclarator
        | NodeKind::PointerDeclarator
        | NodeKind::ReferenceDeclarator => true,
        _ => false,
    }
}

/// Whether the way to the name of a declarator leads through a child: the `declarator` field; where
/// there is none the first child of a wrapper, and the `name` field of anything else; and, where the
/// way is followed to its end, the first child of what has neither.
pub open spec fn leads_to(t: SyntaxTree, j: int, to_the_end: bool) -> bool {
    &&& 0 <= j < t.children.len()
    &&& !is_name_itself(syntax::tag(t))
    &&& syntax::tag(t) != NodeKind::QualifiedIdentifier
    &&& {
        ||| is_field(t, FieldName::Declarator, j)
        ||| lacks(t, FieldName::Declarator) && is_wrapper(syntax::tag(t)) && j == 0
        ||| lacks(t, FieldName::Declarator) && !is_wrapper(syntax::tag(t)) && is_field(
            t,
            FieldName::Name,
            j,
        )
        ||| lacks(t, FieldName::Declarator) && !is_wrapper(syntax::tag(t)) && lacks(
            t,
            FieldName::Name,
        ) && to_the_end && j == 0
    }
}

/// Whether a path is the way to the name of a declarator, or a beginning of it.
pub open spec fn is_way(t: SyntaxTree, path: Seq<int>, to_the_end: bool) -> bool
    decreases path.len(),
{
    path.len() > 0 ==> leads_to(t, path[0], to_the_end) && is_way(
        t.children[path[0]],
        path.skip(1),
        to_the_end,
    )
}

/// The way leads through the declarator inside.
proof fn lemma_leads(t: SyntaxTree, j: int, to_the_end: bool)
    requires
        leads_to(t, j, to_the_end),
    ensures
        names::inner_declarator(t, to_the_end) == Some(t.children[j]),
{
    lemma_finds(t, FieldName::Declarator);
    lemma_finds(t, FieldName::Name);
}

/// What is declared does not change along the way.
proof fn lemma_way(source: Seq<char>, t: SyntaxTree, path: Seq<int>)
    requires
        is_way(t, path, true),
    ensures
        reached(t, path) is Some,
        names::declared_name(source, t) == names::declared_name(source, reached(t, path)->0),
    decreases path.len(),
{
    if path.len() > 0 {
        lemma_leads(t, path[0], true);
        lemma_way(source, t.children[path[0]], path.skip(1));
    }
}

/// A declarator declares the name at the end of its way: the whole text of an identifier, and of a
/// qualified one what stands behind its last separator, with what stands before it as qualifier.
pub proof fn law_declarators_declare_the_name_at_their_end(
    source: Seq<char>,
    t: SyntaxTree,
    path: Seq<int>,
    qualifier: Seq<char>,
    name: Seq<char>,
)
    requires
        is_way(t, path, true),
    ensures
        reached(t, path) matches Some(n) && {
            &&& is_name_itself(syntax::tag(n)) ==> names::declared_name(source, t) == Some(
                (None::<Seq<char>>, syntax::text_of(source, n)),
            )
            &&& syntax::tag(n) == NodeKind::QualifiedIdentifier && syntax::text_of(source, n)
                == qualifier + seq![':', ':'] + name && name.len() > 0 && !name.contains(':')
                ==> names::declared_name(source, t) == Some((Some(qualifier), name))
            &&& !is_name_itself(syntax::tag(n)) && syntax::tag(n) != NodeKind::QualifiedIdentifier
                && (forall|j: int| !leads_to(n, j, true)) ==> names::declared_name(
                source,
                t,
            ) is None
        },
{
    lemma_way(source, t, path);
    let n = reached(t, path)->0;
    let s = syntax::text_of(source, n);
    if syntax::tag(n) == NodeKind::QualifiedIdentifier && s == qualifier + seq![':', ':'] + name
        && name.len() > 0 && !name.contains(':') {
        let k = qualifier.len() as int;
        assert(text::sep_at(s, k));
        assert forall|j: int| k < j implies !text::sep_at(s, j) by {
            if text::sep_at(s, j) {
                let m = j + 1 - (k + 2);
                assert(s[j + 1] == name[m]);
                assert(name.contains(name[m]));
            }
        }
        assert(text::is_last_sep(s, k));
        text::lemma_last_sep(s, k);
        assert(s.take(k) =~= qualifier);
        assert(s.skip(k + 2) =~= name);
    }
    if !is_name_itself(syntax::tag(n)) && syntax::tag(n) != NodeKind::QualifiedIdentifier && (
    forall|j: int| !leads_to(n, j, true)) {
        lemma_ends(n, true);
    }
}

/// A way that leads no further ends.
proof fn lemma_ends(t: SyntaxTree, to_the_end: bool)
    requires
        !is_name_itself(syntax::tag(t)),
        syntax::tag(t) != NodeKind::QualifiedIdentifier,
        forall|j: int| !leads_to(t, j, to_the_end),
    ensures
        names::inner_declarator(t, to_the_end) is None,
{
    lemma_finds(t, FieldName::Declarator);
    lemma_finds(t, FieldName::Name);
    if let Some(c) = names::inner_declarator(t, to_the_end) {
        if syntax::field_child(t, FieldName::Declarator) is Some {
            let j = choose|j: int| #[trigger]
                is_field(t, FieldName::Declarator, j) && Some(c) == Some(t.children[j]);
            assert(leads_to(t, j, to_the_end));
        } else if is_wrapper(syntax::tag(t)) {
            assert(leads_to(t, 0, to_the_end));
        } else if syntax::field_child(t, FieldName::Name) is Some {
            let j = choose|j: int| #[trigger]
                is_field(t, FieldName::Name, j) && Some(c) == Some(t.children[j]);
            assert(leads_to(t, j, to_the_end));
        } else {
            assert(leads_to(t, 0, to_the_end));
        }
    }
}

/// Whether the child at a position is the last that is a name in itself.
pub open spec fn is_last_name(t: SyntaxTree, j: int) -> bool {
    &&& 0 <= j < t.children.len()
    &&& is_name_itself(syntax::tag(t.children[j]))
    &&& forall|i: int|
        j < i < t.children.len() ==> !is_name_itself(syntax::tag(#[trigger] t.children[i]))
}

/// The last child that is a name in itself.
proof fn lemma_last_name(t: SyntaxTree, j: int, n: int)
    requires
        is_last_name(t, j),
        j < n <= t.children.len(),
    ensures
        names::last_name_child(t, n) == Some(t.children[j]),
    decreases n,
{
    if n - 1 > j {
        assert(!is_name_itself(syntax::tag(t.children[n - 1])));
        lemma_last_name(t, j, n - 1);
    }
}

/// The node that names a declarator does not change along the way.
proof fn lemma_way_to_node(t: SyntaxTree, path: Seq<int>)
    requires
        is_way(t, path, false),
    ensures
        reached(t, path) is Some,
        names::declarator_name_node(t) == names::declarator_name_node(reached(t, path)->0),
    decreases path.len(),
{
    if path.len() > 0 {
        lemma_leads(t, path[0], false);
        lemma_way_to_node(t.children[path[0]], path.skip(1));
    }
}

/// The node that names a declarator stands at the end of its way: an identifier itself, and of a
/// qualified one the `name` field, or the last identifier where there is no such field.
pub proof fn law_declarators_are_named_by_the_node_at_their_end(
    t: SyntaxTree,
    path: Seq<int>,
    j: int,
)
    requires
        is_way(t, path, false),
    ensures
        reached(t, path) matches Some(n) && {
            &&& is_name_itself(syntax::tag(n)) ==> names::declarator_name_node(t) == Some(n)
            &&& syntax::tag(n) == NodeKind::QualifiedIdentifier && is_field(n, FieldName::Name, j)
                ==> names::declarator_name_node(t) == Some(n.children[j])
            &&& syntax::tag(n) == NodeKind::QualifiedIdentifier && lacks(n, FieldName::Name)
                && is_last_name(n, j) ==> names::declarator_name_node(t) == Some(n.children[j])
            &&& !is_name_itself(syntax::tag(n)) && syntax::tag(n) != NodeKind::QualifiedIdentifier
                && (forall|i: int| !leads_to(n, i, false)) ==> names::declarator_name_node(
                t,
            ) is None
        },
{
    lemma_way_to_node(t, path);
    let n = reached(t, path)->0;
    lemma_finds(n, FieldName::Name);
    if is_last_name(n, j) {
        lemma_last_name(n, j, n.children.len() as int);
    }
    if !is_name_itself(syntax::tag(n)) && syntax::tag(n) != NodeKind::QualifiedIdentifier && (
    forall|i: int| !leads_to(n, i, false)) {
        lemma_ends(n, false);
    }
}

/// Whether the way to a function leads through a child of a pointer or a reference: its `declarator`
/// field, and its last child where there is none.
pub open spec fn points_to(t: SyntaxTree, j: int) -> bool {
    &&& 0 <= j < t.children.len()
    &&& syntax::tag(t) == NodeKind::PointerDeclarator || syntax::tag(t)
        == NodeKind::ReferenceDeclarator
    &&& is_field(t, FieldName::Declarator, j) || lacks(t, FieldName::Declarator) && j
        == t.children.len() - 1
}

/// Whether a path leads through pointers and references alone.
pub open spec fn is_pointed(t: SyntaxTree, path: Seq<int>) -> bool
    decreases path.len(),
{
    path.len() > 0 ==> points_to(t, path[0]) && is_pointed(t.children[path[0]], path.skip(1))
}

/// A declarator declares a function where pointers and references alone lead to a function
/// declarator, and that one; where they lead to anything else it declares none.
pub proof fn law_functions_are_declared_behind_pointers(t: SyntaxTree, path: Seq<int>)
    requires
        is_pointed(t, path),
    ensures
        reached(t, path) matches Some(n) && {
            &&& syntax::tag(n) == NodeKind::FunctionDeclarator ==> names::function_declarator(t)
                == Some(n)
            &&& syntax::tag(n) != NodeKind::FunctionDeclarator && (forall|j: int| !points_to(n, j))
                ==> names::function_declarator(t) is None
        },
    decreases path.len(),
{
    if path.len() > 0 {
        lemma_finds(t, FieldName::Declarator);
        law_functions_are_declared_behind_pointers(t.children[path[0]], path.skip(1));
    } else if syntax::tag(t) == NodeKind::PointerDeclarator || syntax::tag(t)
        == NodeKind::ReferenceDeclarator {
        if forall|j: int| !points_to(t, j) {
            lemma_finds(t, FieldName::Declarator);
            assert(!points_to(t, t.children.len() - 1));
            if names::wrapped_declarator(t) is Some && !lacks(t, FieldName::Declarator) {
                let j = choose|j: int| #[trigger] is_field(t, FieldName::Declarator, j);
                assert(points_to(t, j));
            }
        }
    }
}

/// A function definition has the function declarator of its first child that declares a function,
/// and none where no child does.
pub proof fn law_definitions_have_the_first_function_declarator(t: SyntaxTree, k: int)
    ensures
        0 <= k < t.children.len() && names::function_declarator(t.children[k]) is Some && (forall|
            i: int,
        |
            0 <= i < k ==> names::function_declarator(#[trigger] t.children[i]) is None)
            ==> names::function_declarator_from(t, 0) == names::function_declarator(t.children[k]),
        (forall|i: int|
            0 <= i < t.children.len() ==> names::function_declarator(#[trigger] t.children[i])
                is None) ==> names::function_declarator_from(t, 0) is None,
{
    lemma_first_function(t, k, 0);
}

/// The first function declarator from a position on.
proof fn lemma_first_function(t: SyntaxTree, k: int, from: int)
    requires
        0 <= from,
    ensures
        from <= k < t.children.len() && names::function_declarator(t.children[k]) is Some && (
        forall|i: int|
            from <= i < k ==> names::function_declarator(#[trigger] t.children[i]) is None)
            ==> names::function_declarator_from(t, from) == names::function_declarator(
            t.children[k],
        ),
        (forall|i: int|
            from <= i < t.children.len() ==> names::function_declarator(#[trigger] t.children[i])
                is None) ==> names::function_declarator_from(t, from) is None,
    decreases t.children.len() - from,
{
    if from < t.children.len() {
        lemma_first_function(t, k, from + 1);
    }
}

/// A function definition is named by its function declarator; without one it is named by the first
/// child that declares a name other than the whole text.
pub proof fn law_definitions_are_named_by_their_declarator(
    source: Seq<char>,
    t: SyntaxTree,
    k: int,
)
    ensures
        names::function_declarator_from(t, 0) matches Some(d) ==> names::function_name(source, t)
            == names::declared_name(source, d),
        names::function_declarator_from(t, 0) is None && is_first_named(source, t, k)
            ==> names::function_name(source, t) == names::declared_name(source, t.children[k]),
        names::function_declarator_from(t, 0) is None && (forall|i: int|
            0 <= i < t.children.len() ==> !names_part(source, t, i)) ==> names::function_name(
            source,
            t,
        ) is None,
{
    lemma_first_named(source, t, k, 0);
}

/// Whether the child at a position declares a name other than the whole text of its parent.
pub open spec fn names_part(source: Seq<char>, t: SyntaxTree, i: int) -> bool {
    names::declared_name(source, t.children[i]) matches Some((q, n)) && n != syntax::text_of(
        source,
        t,
    )
}

/// Whether the child at a position is the first to declare such a name.
pub open spec fn is_first_named(source: Seq<char>, t: SyntaxTree, k: int) -> bool {
    0 <= k < t.children.len() && names_part(source, t, k) && forall|i: int|
        0 <= i < k ==> !names_part(source, t, i)
}

/// The first child from a position on that declares such a name.
proof fn lemma_first_named(source: Seq<char>, t: SyntaxTree, k: int, from: int)
    requires
        0 <= from,
    ensures
        from <= k && is_first_named(source, t, k) ==> names::function_name_from(source, t, from)
            == names::declared_name(source, t.children[k]),
        (forall|i: int| from <= i < t.children.len() ==> !names_part(source, t, i))
            ==> names::function_name_from(source, t, from) is None,
    decreases t.children.len() - from,
{
    if from < t.children.len() {
        lemma_first_named(source, t, k, from + 1);
        if from < k && is_first_named(source, t, k) {
            assert(!names_part(source, t, from));
        }
        if forall|i: int| from <= i < t.children.len() ==> !names_part(source, t, i) {
            assert(!names_part(source, t, from));
        }
    }
}

/// Whether a kind of node holds a name: of a variable or a field, or of any symbol.
pub open spec fn holds(k: NodeKind, any: bool) -> bool {
    match k {
        NodeKind::Identifier | NodeKind::FieldIdentifier => true,
        NodeKind::TypeIdentifier | NodeKind::NamespaceIdentifier | NodeKind::DestructorName => any,
        _ => false,
    }
}

/// Whether a path stands before another in reading order.
pub open spec fn reads_before(a: Seq<int>, b: Seq<int>) -> bool
    decreases b.len(),
{
    if b.len() == 0 {
        false
    } else if a.len() == 0 {
        true
    } else if a[0] != b[0] {
        a[0] < b[0]
    } else {
        reads_before(a.skip(1), b.skip(1))
    }
}

/// Whether the node at a path below another holds a name.
pub open spec fn holds_at(t: SyntaxTree, any: bool, path: Seq<int>) -> bool {
    path.len() > 0 && (reached(t, path) matches Some(n) && holds(syntax::tag(n), any))
}

/// The first node that holds a name, from a child on.
proof fn lemma_name_below(t: SyntaxTree, any: bool, i: int) -> (path: Seq<int>)
    requires
        0 <= i,
    ensures
        names::name_below(t, any, i) is None ==> forall|q: Seq<int>| #[trigger]
            holds_at(t, any, q) ==> q[0] < i,
        names::name_below(t, any, i) is Some ==> {
            &&& holds_at(t, any, path)
            &&& path[0] >= i
            &&& reached(t, path) == names::name_below(t, any, i)
            &&& forall|q: Seq<int>| #[trigger]
                holds_at(t, any, q) && q[0] >= i ==> !reads_before(q, path)
        },
    decreases t, t.children.len() - i,
{
    if i >= t.children.len() {
        Seq::empty()
    } else {
        let c = t.children[i];
        assert(decreases_to!(t => t.children));
        if holds(syntax::tag(c), any) {
            let path = seq![i];
            assert(path.skip(1) =~= Seq::<int>::empty());
            assert(reached(c, path.skip(1)) == Some(c));
            assert forall|q: Seq<int>| #[trigger]
                holds_at(t, any, q) && q[0] >= i implies !reads_before(q, path) by {
                assert(!reads_before(q.skip(1), path.skip(1)));
            }
            path
        } else {
            let inner = lemma_name_below(c, any, 0);
            assert forall|q: Seq<int>| #[trigger]
                holds_at(t, any, q) && q[0] == i implies q.len() > 1 && holds_at(
                c,
                any,
                q.skip(1),
            ) by {
                if q.len() == 1 {
                    assert(q.skip(1) =~= Seq::<int>::empty());
                    assert(reached(c, q.skip(1)) == Some(c));
                }
            }
            if names::name_below(c, any, 0) is Some {
                let path = seq![i] + inner;
                assert(path.skip(1) =~= inner);
                assert(path[0] == i);
                assert forall|q: Seq<int>| #[trigger]
                    holds_at(t, any, q) && q[0] >= i implies !reads_before(q, path) by {
                    if q[0] == i {
                        assert(holds_at(c, any, q.skip(1)));
                    }
                }
                path
            } else {
                let path = lemma_name_below(t, any, i + 1);
                assert forall|q: Seq<int>| #[trigger] holds_at(t, any, q) implies q[0] != i by {
                    if q[0] == i {
                        assert(holds_at(c, any, q.skip(1)));
                        assert(q.skip(1)[0] < 0);
                        assert(reached(c, q.skip(1)) is Some);
                    }
                }
                path
            }
        }
    }
}

/// The name below a node is the first node in reading order that holds one, at whatever depth it
/// stands; there is none where no node below holds a name.
pub proof fn law_the_first_name_below_is_found(t: SyntaxTree, any: bool) -> (path: Seq<int>)
    ensures
        names::name_below(t, any, 0) is None <==> forall|q: Seq<int>| !#[trigger] holds_at(t, any, q),
        names::name_below(t, any, 0) is Some ==> {
            &&& holds_at(t, any, path)
            &&& reached(t, path) == names::name_below(t, any, 0)
            &&& forall|q: Seq<int>| #[trigger] holds_at(t, any, q) ==> !reads_before(q, path)
        },
{
    let path = lemma_name_below(t, any, 0);
    assert forall|q: Seq<int>| #[trigger] holds_at(t, any, q) implies q[0] >= 0 by {
        assert(reached(t, q) is Some);
    }
    path
}

/// The node that names a symbol is its `name` field, and else the first below it that holds a name.
pub proof fn law_symbols_are_named_by_their_name_field(t: SyntaxTree, j: int)
    ensures
        is_field(t, FieldName::Name, j) ==> names::name_node(t) == Some(t.children[j]),
        lacks(t, FieldName::Name) ==> names::name_node(t) == names::name_below(t, true, 0),
{
    lemma_finds(t, FieldName::Name);
}

/// The node that names a function is the one that its declarator is named by; without one it is
/// that which names the symbol, and the node itself where there is none either.
pub proof fn law_functions_are_named_by_their_declarator(
    t: SyntaxTree,
    declarator: Option<SyntaxTree>,
)
    ensures
        (declarator matches Some(d) && names::declarator_name_node(d) is Some) ==> Some(
            def_pass::function_name_node(t, declarator),
        ) == names::declarator_name_node(declarator->0),
        !(declarator matches Some(d) && names::declarator_name_node(d) is Some)
            && names::name_node(t) is Some ==> Some(def_pass::function_name_node(t, declarator))
            == names::name_node(t),
        !(declarator matches Some(d) && names::declarator_name_node(d) is Some)
            && names::name_node(t) is None ==> def_pass::function_name_node(t, declarator) == t,
{
}

/// The head of a function definition runs from its beginning to the end of its function declarator.
pub proof fn law_heads_end_with_their_declarator(
    source: Seq<char>,
    t: SyntaxTree,
    d: SyntaxTree,
    head: SyntaxTree,
)
    requires
        names::function_declarator_from(t, 0) == Some(d),
        head.start_byte == t.start_byte,
        head.end_byte == d.end_byte,
        syntax::text_of(source, head).len() > 0,
    ensures
        def_pass::function_head(source, t) == Some(text::trimmed(syntax::text_of(source, head))),
{
}

/// A variable is named by an identifier that declares it, by the first name below a declarator that
/// initialises or wraps, and by the first name below the parentheses of a pointer to a function; a
/// function that is no pointer is no variable.
pub proof fn law_variables_are_named_by_their_declarator(t: SyntaxTree, j: int, k: int)
    ensures
        match syntax::tag(t) {
            NodeKind::Identifier | NodeKind::FieldIdentifier => def_pass::variable_name_node(t)
                == Some(t),
            NodeKind::InitDeclarator
            | NodeKind::PointerDeclarator
            | NodeKind::ArrayDeclarator
            | NodeKind::ReferenceDeclarator => def_pass::variable_name_node(t)
                == names::name_below(t, false, 0),
            NodeKind::FunctionDeclarator => {
                &&& is_field(t, FieldName::Declarator, j) && syntax::tag(t.children[j])
                    == NodeKind::ParenthesizedDeclarator && 0 <= k < t.children[j].children.len()
                    && syntax::tag(t.children[j].children[k]) == NodeKind::PointerDeclarator
                    ==> def_pass::variable_name_node(t) == names::name_below(
                    t.children[j],
                    false,
                    0,
                )
                &&& is_field(t, FieldName::Declarator, j) && syntax::tag(t.children[j])
                    != NodeKind::ParenthesizedDeclarator ==> def_pass::variable_name_node(t) is None
                &&& lacks(t, FieldName::Declarator) ==> def_pass::variable_name_node(t) is None
            },
            _ => def_pass::variable_name_node(t) is None,
        },
{
    lemma_finds(t, FieldName::Declarator);
    if is_field(t, FieldName::Declarator, j) && 0 <= k < t.children[j].children.len()
        && syntax::tag(t.children[j].children[k]) == NodeKind::PointerDeclarator {
        lemma_kind(t.children[j], NodeKind::PointerDeclarator, k, 0);
    }
}

/// A node with a child of a kind finds one.
proof fn lemma_kind(t: SyntaxTree, kind: NodeKind, k: int, from: int)
    requires
        0 <= from <= k < t.children.len(),
        syntax::tag(t.children[k]) == kind,
    ensures
        from <= syntax::kind_from(t, kind, from) <= k,
    decreases k - from,
{
    if syntax::tag(t.children[from]) != kind {
        lemma_kind(t, kind, k, from + 1);
    }
}

} // verus!
