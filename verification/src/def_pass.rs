//! The definition pass: walks a syntax tree and collects what it defines and declares.
use crate::names::{
    classify_function, descendant_with_name, extract_access, extract_function_name,
    extract_name_from_declarator, extract_namespace_name, extract_typename,
    find_declarator_name_node, find_function_declarator, find_name_node,
    find_own_function_declarator,
};
use crate::names;
use crate::scope::{
    Scope, ScopeView, current_scope_qualified_name, is_in_type_scope, name_below_parent,
    parent_with_qualifier, scope_declares_fields,
};
use crate::scope;
use crate::syntax::{FieldName, NodeKind, SyntaxNode, SyntaxTree, slice};
use crate::syntax;
use crate::text::trim;
use crate::text;
use crate::types::{
    Definition, DefinitionView, InheritEdge, InheritEdgeView, Location, LocationView, SymbolKind,
    Visibility,
};
use vstd::prelude::*;

verus! {

/// The line of a row: lines count from one.
pub open spec fn line_of_row(row: usize) -> usize {
    if row == usize::MAX {
        row
    } else {
        (row + 1) as usize
    }
}

/// Where a tree stands in its file.
pub open spec fn place(file: Seq<char>, t: SyntaxTree) -> LocationView {
    LocationView {
        file,
        line: line_of_row(t.start_row),
        column: t.start_column,
        end_line: line_of_row(t.end_row),
        end_column: t.end_column,
    }
}

/// Where a node stands in its file.
pub fn location_of(file: &str, n: &SyntaxNode) -> (r: Location)
    ensures
        r@ == place(file@, n@),
{
    Location {
        file: file.to_owned(),
        line: n.start_row.saturating_add(1),
        column: n.start_column,
        end_line: n.end_row.saturating_add(1),
        end_column: n.end_column,
    }
}

/// The visibility in force: that of the innermost scope, and public outside of all scopes.
pub open spec fn in_force(visibility: Option<Visibility>) -> Visibility {
    match visibility {
        Some(v) => v,
        None => Visibility::Public,
    }
}

/// A symbol as the parser first knows it.
pub open spec fn symbol(
    name: Seq<char>,
    kind: SymbolKind,
    location: LocationView,
    parent: Option<Seq<char>>,
    visibility: Visibility,
) -> DefinitionView {
    DefinitionView {
        id: None,
        name,
        qualified_name: scope::name_in(parent, name),
        kind,
        location,
        parent,
        signature: None,
        visibility,
        is_definition: true,
        extra: None,
    }
}

/// The tree where one is given, else another.
pub open spec fn tree_or(t: Option<SyntaxTree>, other: SyntaxTree) -> SyntaxTree {
    match t {
        Some(u) => u,
        None => other,
    }
}

/// The symbol of a namespace, class, struct, union or enum: never marked as a definition.
pub open spec fn scope_symbol(
    file: Seq<char>,
    t: SyntaxTree,
    name: Option<Seq<char>>,
    kind: SymbolKind,
    scopes: Seq<ScopeView>,
    visibility: Visibility,
) -> Option<DefinitionView> {
    match name {
        Some(n) => Some(
            DefinitionView {
                is_definition: false,
                ..symbol(
                    n,
                    kind,
                    place(file, tree_or(names::name_node(t), t)),
                    scope::scope_name(scopes),
                    visibility,
                )
            },
        ),
        None => None,
    }
}

/// The symbol of a function that is declared by `d` inside `t`, under a name.
pub open spec fn function_symbol(
    file: Seq<char>,
    at: SyntaxTree,
    qualifier: Option<Seq<char>>,
    name: Seq<char>,
    scopes: Seq<ScopeView>,
    visibility: Visibility,
) -> DefinitionView {
    let parent = scope::qualified_parent(scopes, qualifier);
    let is_method = scope::in_type(scopes) || qualifier is Some;
    symbol(name, names::function_kind(name, parent, is_method), place(file, at), parent, visibility)
}

/// The node that names a function: the name in its declarator, else the first name inside `t`.
pub open spec fn function_name_node(t: SyntaxTree, declarator: Option<SyntaxTree>) -> SyntaxTree {
    let declared = match declarator {
        Some(d) => names::declarator_name_node(d),
        None => None,
    };
    match declared {
        Some(n) => n,
        None => tree_or(names::name_node(t), t),
    }
}

/// The head of a function definition: its text up to the end of its declarator.
pub open spec fn function_head(source: Seq<char>, t: SyntaxTree) -> Option<Seq<char>> {
    match names::function_declarator_from(t, 0) {
        Some(d) => match syntax::slice_of(source, t.start_byte as int, d.end_byte as int) {
            Some(s) => Some(text::trimmed(s)),
            None => None,
        },
        None => None,
    }
}

/// The symbol of a function definition.
pub open spec fn defined_function(
    file: Seq<char>,
    source: Seq<char>,
    t: SyntaxTree,
    scopes: Seq<ScopeView>,
    visibility: Visibility,
) -> Option<DefinitionView> {
    match names::function_name(source, t) {
        Some((q, n)) => Some(
            DefinitionView {
                signature: function_head(source, t),
                ..function_symbol(
                    file,
                    function_name_node(t, names::function_declarator_from(t, 0)),
                    q,
                    n,
                    scopes,
                    visibility,
                )
            },
        ),
        None => None,
    }
}

/// The node that names a pointer to a function, where a function declarator declares one.
pub open spec fn function_pointer_name_node(t: SyntaxTree) -> Option<SyntaxTree> {
    match syntax::field_child(t, FieldName::Declarator) {
        Some(p) => if syntax::tag(p) == NodeKind::ParenthesizedDeclarator && syntax::kind_child(
            p,
            NodeKind::PointerDeclarator,
        ) is Some {
            names::name_below(p, false, 0)
        } else {
            None
        },
        None => None,
    }
}

/// The node that names a variable, where the node is a declarator of one.
pub open spec fn variable_name_node(t: SyntaxTree) -> Option<SyntaxTree> {
    let k = syntax::tag(t);
    if k == NodeKind::InitDeclarator || k == NodeKind::PointerDeclarator || k
        == NodeKind::ArrayDeclarator || k == NodeKind::ReferenceDeclarator {
        names::name_below(t, false, 0)
    } else if k == NodeKind::Identifier || k == NodeKind::FieldIdentifier {
        Some(t)
    } else if k == NodeKind::FunctionDeclarator {
        function_pointer_name_node(t)
    } else {
        None
    }
}

/// The symbol that a declarator `c` of a declaration `t` declares: a function, or a variable or
/// field.
pub open spec fn declared_by(
    file: Seq<char>,
    source: Seq<char>,
    t: SyntaxTree,
    c: SyntaxTree,
    scopes: Seq<ScopeView>,
    visibility: Visibility,
) -> Option<DefinitionView> {
    let function = match names::function_declarator(c) {
        Some(d) => names::declared_name(source, d),
        None => None,
    };
    match function {
        Some((q, n)) => Some(
            DefinitionView {
                signature: Some(syntax::text_of(source, t)),
                is_definition: false,
                ..function_symbol(
                    file,
                    function_name_node(t, names::function_declarator(c)),
                    q,
                    n,
                    scopes,
                    visibility,
                )
            },
        ),
        None => match variable_name_node(c) {
            Some(n) => Some(
                symbol(
                    syntax::text_of(source, n),
                    if scope::declares_fields(scopes) {
                        SymbolKind::Field
                    } else {
                        SymbolKind::Variable
                    },
                    place(file, n),
                    scope::scope_name(scopes),
                    visibility,
                ),
            ),
            None => None,
        },
    }
}

/// Whether the child at a position is the value behind an equals sign.
pub open spec fn is_value(t: SyntaxTree, i: int) -> bool {
    0 < i < t.children.len() && syntax::tag(t.children[i - 1]) == NodeKind::EqualsSign
}

/// The symbols that a declaration declares from its child at position `i` on: one for each
/// declarator.
pub open spec fn declared_from(
    file: Seq<char>,
    source: Seq<char>,
    t: SyntaxTree,
    i: int,
    scopes: Seq<ScopeView>,
    visibility: Visibility,
) -> Seq<DefinitionView>
    decreases t.children.len() - i,
{
    if i < 0 || i >= t.children.len() {
        Seq::empty()
    } else {
        let own = if is_value(t, i) {
            None
        } else {
            declared_by(file, source, t, t.children[i], scopes, visibility)
        };
        one_or_none(own) + declared_from(file, source, t, i + 1, scopes, visibility)
    }
}

/// The symbol of a macro: it is qualified by the scopes around it but has no parent.
pub open spec fn defined_macro(
    file: Seq<char>,
    source: Seq<char>,
    t: SyntaxTree,
    scopes: Seq<ScopeView>,
) -> Option<DefinitionView> {
    match syntax::field_child(t, FieldName::Name) {
        Some(n) => Some(
            DefinitionView {
                parent: None,
                ..symbol(
                    syntax::text_of(source, n),
                    SymbolKind::Macro,
                    place(file, n),
                    scope::scope_name(scopes),
                    Visibility::Public,
                )
            },
        ),
        None => None,
    }
}

/// The last of the first `i` children that is a type name.
pub open spec fn last_type_child(t: SyntaxTree, i: int) -> Option<SyntaxTree>
    decreases i,
{
    if i <= 0 || i > t.children.len() {
        None
    } else if syntax::tag(t.children[i - 1]) == NodeKind::TypeIdentifier {
        Some(t.children[i - 1])
    } else {
        last_type_child(t, i - 1)
    }
}

/// The symbol of a typedef: its last type name.
pub open spec fn defined_type(
    file: Seq<char>,
    source: Seq<char>,
    t: SyntaxTree,
    scopes: Seq<ScopeView>,
    visibility: Visibility,
) -> Option<DefinitionView> {
    match last_type_child(t, t.children.len() as int) {
        Some(n) => Some(
            symbol(
                syntax::text_of(source, n),
                SymbolKind::Typedef,
                place(file, n),
                scope::scope_name(scopes),
                visibility,
            ),
        ),
        None => None,
    }
}

/// The symbol of an enumerator, which is always public.
pub open spec fn defined_enumerator(
    file: Seq<char>,
    source: Seq<char>,
    t: SyntaxTree,
    scopes: Seq<ScopeView>,
) -> Option<DefinitionView> {
    match syntax::field_child(t, FieldName::Name) {
        Some(n) => Some(
            symbol(
                syntax::text_of(source, n),
                SymbolKind::EnumVariant,
                place(file, n),
                scope::scope_name(scopes),
                Visibility::Public,
            ),
        ),
        None => None,
    }
}

/// The symbols that a node itself defines or declares, without those below it.
pub open spec fn own_symbols(
    file: Seq<char>,
    source: Seq<char>,
    t: SyntaxTree,
    scopes: Seq<ScopeView>,
    visibility: Visibility,
) -> Seq<DefinitionView> {
    match syntax::tag(t) {
        NodeKind::NamespaceDefinition => one_or_none(
            scope_symbol(
                file,
                t,
                names::namespace_name(source, t),
                SymbolKind::Namespace,
                scopes,
                visibility,
            ),
        ),
        NodeKind::ClassSpecifier => one_or_none(
            scope_symbol(
                file,
                t,
                names::typename(source, t),
                SymbolKind::Class,
                scopes,
                visibility,
            ),
        ),
        NodeKind::StructSpecifier => one_or_none(
            scope_symbol(
                file,
                t,
                names::typename(source, t),
                SymbolKind::Struct,
                scopes,
                visibility,
            ),
        ),
        NodeKind::UnionSpecifier => one_or_none(
            scope_symbol(
                file,
                t,
                names::typename(source, t),
                SymbolKind::Union,
                scopes,
                visibility,
            ),
        ),
        NodeKind::EnumSpecifier => one_or_none(
            scope_symbol(
                file,
                t,
                names::typename(source, t),
                SymbolKind::Enum,
                scopes,
                visibility,
            ),
        ),
        NodeKind::FunctionDefinition => one_or_none(
            defined_function(file, source, t, scopes, visibility),
        ),
        NodeKind::Declaration | NodeKind::FieldDeclaration => declared_from(
            file,
            source,
            t,
            0,
            scopes,
            visibility,
        ),
        NodeKind::PreprocDef | NodeKind::PreprocFunctionDef => one_or_none(
            defined_macro(file, source, t, scopes),
        ),
        NodeKind::TypeDefinition => one_or_none(
            defined_type(file, source, t, scopes, visibility),
        ),
        NodeKind::Enumerator => one_or_none(defined_enumerator(file, source, t, scopes)),
        _ => Seq::empty(),
    }
}

/// The name, where there is one, else the empty text.
pub open spec fn name_or_empty(name: Option<Seq<char>>) -> Seq<char> {
    match name {
        Some(n) => n,
        None => Seq::empty(),
    }
}

/// The scope that a node opens, with the visibility that holds at its start: private in a
/// class, public elsewhere.
pub open spec fn opened(source: Seq<char>, t: SyntaxTree) -> Option<(ScopeView, Visibility)> {
    let of_type = name_or_empty(names::typename(source, t));
    match syntax::tag(t) {
        NodeKind::NamespaceDefinition => Some(
            (
                ScopeView {
                    name: name_or_empty(names::namespace_name(source, t)),
                    kind: SymbolKind::Namespace,
                },
                Visibility::Public,
            ),
        ),
        NodeKind::ClassSpecifier => Some(
            (ScopeView { name: of_type, kind: SymbolKind::Class }, Visibility::Private),
        ),
        NodeKind::StructSpecifier | NodeKind::UnionSpecifier => Some(
            (ScopeView { name: of_type, kind: SymbolKind::Class }, Visibility::Public),
        ),
        NodeKind::EnumSpecifier => Some(
            (ScopeView { name: of_type, kind: SymbolKind::Enum }, Visibility::Public),
        ),
        _ => None,
    }
}

/// Whether a node is an identifier, below which nothing is read.
pub open spec fn is_leaf(t: SyntaxTree) -> bool {
    let k = syntax::tag(t);
    k == NodeKind::Identifier || k == NodeKind::TypeIdentifier || k == NodeKind::FieldIdentifier
        || k == NodeKind::NamespaceIdentifier
}

/// Whether a child of a base class clause names a base.
pub open spec fn names_base(k: NodeKind) -> bool {
    k == NodeKind::TypeIdentifier || k == NodeKind::Identifier || k
        == NodeKind::QualifiedIdentifier || k == NodeKind::TemplateType || k
        == NodeKind::ParameterizedType || k == NodeKind::ScopedTypeIdentifier || k
        == NodeKind::QualifiedTypeIdentifier
}

/// The bases that a base class clause names from its child at position `i` on. `access` and
/// `is_virtual` are what was written before the next base; a base without an access of its own
/// has the default one.
pub open spec fn bases_from(
    file: Seq<char>,
    source: Seq<char>,
    t: SyntaxTree,
    i: int,
    derived: Seq<char>,
    default: Visibility,
    access: Option<Visibility>,
    is_virtual: bool,
) -> Seq<InheritEdgeView>
    decreases t.children.len() - i,
{
    if i < 0 || i >= t.children.len() {
        Seq::empty()
    } else {
        let c = t.children[i];
        let k = syntax::tag(c);
        if k == NodeKind::AccessSpecifier {
            bases_from(
                file,
                source,
                t,
                i + 1,
                derived,
                default,
                names::access_named(syntax::text_of(source, c)),
                is_virtual,
            )
        } else if k == NodeKind::Virtual {
            bases_from(file, source, t, i + 1, derived, default, access, true)
        } else if names_base(k) && syntax::text_of(source, c).len() > 0 {
            let base = InheritEdgeView {
                derived_name: derived,
                base_name: syntax::text_of(source, c),
                location: place(file, c),
                access: match access {
                    Some(a) => a,
                    None => default,
                },
                is_virtual,
            };
            seq![base] + bases_from(file, source, t, i + 1, derived, default, None, false)
        } else {
            bases_from(file, source, t, i + 1, derived, default, access, is_virtual)
        }
    }
}

/// The bases that a node itself names, for the innermost scope.
pub open spec fn own_bases(
    file: Seq<char>,
    source: Seq<char>,
    t: SyntaxTree,
    scopes: Seq<ScopeView>,
    visibility: Visibility,
) -> Seq<InheritEdgeView> {
    if syntax::tag(t) == NodeKind::BaseClassClause {
        let derived = if scopes.len() > 0 {
            scopes.last().name
        } else {
            Seq::empty()
        };
        bases_from(file, source, t, 0, derived, visibility, None, false)
    } else {
        Seq::empty()
    }
}

/// What the definition pass finds, and the visibility that holds behind it.
pub struct Found {
    pub definitions: Seq<DefinitionView>,
    pub inherits: Seq<InheritEdgeView>,
    pub visibility: Option<Visibility>,
}

/// The symbol as a sequence.
pub open spec fn one_or_none(d: Option<DefinitionView>) -> Seq<DefinitionView> {
    match d {
        Some(d) => seq![d],
        None => Seq::empty(),
    }
}

/// The visibility behind the head of a node: an access specifier sets that of the innermost
/// scope.
pub open spec fn access_after(
    source: Seq<char>,
    t: SyntaxTree,
    visibility: Option<Visibility>,
) -> Option<Visibility> {
    let access = names::access_named(syntax::text_of(source, t));
    if syntax::tag(t) == NodeKind::AccessSpecifier && visibility is Some && access is Some {
        access
    } else {
        visibility
    }
}

/// What a tree defines inside the given scopes, outermost first and in reading order.
/// `visibility` is that of the innermost scope. The access words of a base class clause belong
/// to the bases: behind the clause the visibility is what it was.
pub open spec fn found_in(
    file: Seq<char>,
    source: Seq<char>,
    t: SyntaxTree,
    scopes: Seq<ScopeView>,
    visibility: Option<Visibility>,
) -> Found
    decreases t, t.children.len() + 1,
{
    if is_leaf(t) {
        Found { definitions: Seq::empty(), inherits: Seq::empty(), visibility }
    } else {
        let own = own_symbols(file, source, t, scopes, in_force(visibility));
        let bases = own_bases(file, source, t, scopes, in_force(visibility));
        match opened(source, t) {
            Some((s, v)) => {
                let inner = found_from(file, source, t, 0, scopes.push(s), Some(v));
                Found {
                    definitions: own + inner.definitions,
                    inherits: bases + inner.inherits,
                    visibility,
                }
            },
            None => {
                let inner = found_from(
                    file,
                    source,
                    t,
                    0,
                    scopes,
                    access_after(source, t, visibility),
                );
                Found {
                    definitions: own + inner.definitions,
                    inherits: bases + inner.inherits,
                    visibility: if syntax::tag(t) == NodeKind::BaseClassClause {
                        visibility
                    } else {
                        inner.visibility
                    },
                }
            },
        }
    }
}

/// What the children of a tree define, from position `i` on.
pub open spec fn found_from(
    file: Seq<char>,
    source: Seq<char>,
    t: SyntaxTree,
    i: int,
    scopes: Seq<ScopeView>,
    visibility: Option<Visibility>,
) -> Found
    decreases t, t.children.len() - i,
{
    if i < 0 || i >= t.children.len() {
        Found { definitions: Seq::empty(), inherits: Seq::empty(), visibility }
    } else {
        let first = found_in(file, source, t.children[i], scopes, visibility);
        let rest = found_from(file, source, t, i + 1, scopes, first.visibility);
        Found {
            definitions: first.definitions + rest.definitions,
            inherits: first.inherits + rest.inherits,
            visibility: rest.visibility,
        }
    }
}

/// The stack with the visibility of its innermost scope replaced.
pub open spec fn with_top(stack: Seq<Visibility>, top: Option<Visibility>) -> Seq<Visibility> {
    match top {
        Some(v) if stack.len() > 0 => stack.update(stack.len() - 1, v),
        _ => stack,
    }
}

/// The visibility of the innermost scope.
pub open spec fn top_of(stack: Seq<Visibility>) -> Option<Visibility> {
    if stack.len() > 0 {
        Some(stack.last())
    } else {
        None
    }
}

/// The state of the definition pass over one file.
pub struct DefPass<'a> {
    pub file: &'a str,
    pub source: &'a str,
    pub scopes: Vec<Scope>,
    pub visibility: Vec<Visibility>,
    pub definitions: Vec<Definition>,
    pub inherits: Vec<InheritEdge>,
}

/// A symbol as the parser first knows it.
fn new_symbol(
    name: String,
    kind: SymbolKind,
    location: Location,
    parent: Option<String>,
    visibility: Visibility,
) -> (r: Definition)
    ensures
        r@ == symbol(name@, kind, location@, text::view_opt(parent), visibility),
{
    let qualified_name = name_below_parent(&parent, name.as_str());
    Definition {
        id: None,
        name,
        qualified_name,
        kind,
        location,
        parent,
        signature: None,
        visibility,
        is_definition: true,
        extra: None,
    }
}

/// The node that names a function.
fn find_function_name_node<'n>(n: &'n SyntaxNode, declarator: Option<&'n SyntaxNode>) -> (r:
    &'n SyntaxNode)
    ensures
        r@ == function_name_node(n@, text::view_opt(declarator)),
{
    if let Some(d) = declarator {
        if let Some(c) = find_declarator_name_node(d) {
            return c;
        }
    }
    match find_name_node(n) {
        Some(c) => c,
        None => n,
    }
}

/// The head of a function definition.
fn find_function_head(n: &SyntaxNode, source: &str) -> (r: Option<String>)
    ensures
        text::view_opt(r) == function_head(source@, n@),
{
    match find_own_function_declarator(n) {
        Some(d) => match slice(source, n.start_byte, d.end_byte) {
            Some(s) => Some(trim(s)),
            None => None,
        },
        None => None,
    }
}

/// The node that names a pointer to a function, where a function declarator declares one.
fn find_function_pointer_name_node(n: &SyntaxNode) -> (r: Option<&SyntaxNode>)
    ensures
        text::view_opt(r) == function_pointer_name_node(n@),
{
    match n.child_by_field_name(FieldName::Declarator) {
        Some(p) => if p.tag() == NodeKind::ParenthesizedDeclarator && p.child_of_kind(
            NodeKind::PointerDeclarator,
        ).is_some() {
            descendant_with_name(p, false)
        } else {
            None
        },
        None => None,
    }
}

/// The node that names a variable, where the node is a declarator of one.
fn find_variable_name_node(n: &SyntaxNode) -> (r: Option<&SyntaxNode>)
    ensures
        text::view_opt(r) == variable_name_node(n@),
{
    let k = n.tag();
    if k == NodeKind::InitDeclarator || k == NodeKind::PointerDeclarator || k
        == NodeKind::ArrayDeclarator || k == NodeKind::ReferenceDeclarator {
        descendant_with_name(n, false)
    } else if k == NodeKind::Identifier || k == NodeKind::FieldIdentifier {
        Some(n)
    } else if k == NodeKind::FunctionDeclarator {
        find_function_pointer_name_node(n)
    } else {
        None
    }
}

/// The last child that is a type name.
fn find_last_type(n: &SyntaxNode) -> (r: Option<&SyntaxNode>)
    ensures
        text::view_opt(r) == last_type_child(n@, n@.children.len() as int),
{
    let mut i: usize = n.children.len();
    proof {
        syntax::lemma_node_view(*n);
    }
    while i > 0
        invariant
            n@.children.len() == n.children@.len(),
            forall|j: int|
                0 <= j < n.children@.len() ==> #[trigger] n@.children[j] == n.children@[j]@,
            i <= n.children@.len(),
            last_type_child(n@, n@.children.len() as int) == last_type_child(n@, i as int),
        decreases i,
    {
        i = i - 1;
        let c = &n.children[i];
        assert(n@.children[i as int] == c@);
        if c.tag() == NodeKind::TypeIdentifier {
            return Some(c);
        }
    }
    None
}

/// Whether a node is an identifier.
pub fn is_identifier(k: NodeKind) -> (r: bool)
    ensures
        r == (k == NodeKind::Identifier || k == NodeKind::TypeIdentifier || k
            == NodeKind::FieldIdentifier || k == NodeKind::NamespaceIdentifier),
{
    k == NodeKind::Identifier || k == NodeKind::TypeIdentifier || k == NodeKind::FieldIdentifier
        || k == NodeKind::NamespaceIdentifier
}

/// The text, where there is one, else the empty text.
fn unnamed_if_none(name: Option<String>) -> (r: String)
    ensures
        r@ == name_or_empty(text::view_opt(name)),
{
    match name {
        Some(n) => n,
        None => String::new(),
    }
}

/// The scope that a node opens, with the visibility that holds at its start.
pub fn scope_opened(n: &SyntaxNode, source: &str) -> (r: Option<(Scope, Visibility)>)
    ensures
        match (r, opened(source@, n@)) {
            (Some((s, v)), Some((t, w))) => s@ == t && v == w,
            (None, None) => true,
            _ => false,
        },
{
    match n.tag() {
        NodeKind::NamespaceDefinition => {
            let name = unnamed_if_none(extract_namespace_name(n, source));
            Some((Scope { name, kind: SymbolKind::Namespace }, Visibility::Public))
        },
        NodeKind::ClassSpecifier => {
            let name = unnamed_if_none(extract_typename(n, source));
            Some((Scope { name, kind: SymbolKind::Class }, Visibility::Private))
        },
        NodeKind::StructSpecifier | NodeKind::UnionSpecifier => {
            let name = unnamed_if_none(extract_typename(n, source));
            Some((Scope { name, kind: SymbolKind::Class }, Visibility::Public))
        },
        NodeKind::EnumSpecifier => {
            let name = unnamed_if_none(extract_typename(n, source));
            Some((Scope { name, kind: SymbolKind::Enum }, Visibility::Public))
        },
        _ => None,
    }
}

impl<'a> DefPass<'a> {
    /// The pass before it has seen anything.
    pub fn new(file: &'a str, source: &'a str) -> (r: Self)
        ensures
            r.file == file,
            r.source == source,
            r.scopes@.len() == 0,
            r.visibility@.len() == 0,
            r.definitions@.len() == 0,
            r.inherits@.len() == 0,
    {
        DefPass {
            file,
            source,
            scopes: Vec::new(),
            visibility: Vec::new(),
            definitions: Vec::new(),
            inherits: Vec::new(),
        }
    }

    /// The visibility in force.
    fn current_visibility(&self) -> (r: Visibility)
        ensures
            r == in_force(top_of(self.visibility@)),
    {
        let n = self.visibility.len();
        if n == 0 {
            Visibility::Public
        } else {
            self.visibility[n - 1]
        }
    }

    /// The symbol of a namespace, class, struct, union or enum.
    fn scope_definition(&self, n: &SyntaxNode, name: Option<String>, kind: SymbolKind) -> (r: Option<
        Definition,
    >)
        ensures
            text::view_opt(r) == scope_symbol(
                self.file@,
                n@,
                text::view_opt(name),
                kind,
                text::views(self.scopes@),
                in_force(top_of(self.visibility@)),
            ),
    {
        match name {
            Some(name) => {
                let at = match find_name_node(n) {
                    Some(c) => c,
                    None => n,
                };
                let mut d = new_symbol(
                    name,
                    kind,
                    location_of(self.file, at),
                    current_scope_qualified_name(&self.scopes),
                    self.current_visibility(),
                );
                d.is_definition = false;
                Some(d)
            },
            None => None,
        }
    }

    /// The symbol of a function with a qualifier and a name.
    fn function_of(
        &self,
        n: &SyntaxNode,
        declarator: Option<&SyntaxNode>,
        qualifier: Option<String>,
        name: String,
    ) -> (r: Definition)
        ensures
            r@ == function_symbol(
                self.file@,
                function_name_node(n@, text::view_opt(declarator)),
                text::view_opt(qualifier),
                name@,
                text::views(self.scopes@),
                in_force(top_of(self.visibility@)),
            ),
    {
        let parent = parent_with_qualifier(&self.scopes, &qualifier);
        let is_method = is_in_type_scope(&self.scopes) || qualifier.is_some();
        let kind = classify_function(name.as_str(), &parent, is_method);
        let at = find_function_name_node(n, declarator);
        new_symbol(name, kind, location_of(self.file, at), parent, self.current_visibility())
    }

    /// The symbol that a declarator of a declaration declares.
    fn declared(&self, n: &SyntaxNode, c: &SyntaxNode) -> (r: Option<Definition>)
        ensures
            text::view_opt(r) == declared_by(
                self.file@,
                self.source@,
                n@,
                c@,
                text::views(self.scopes@),
                in_force(top_of(self.visibility@)),
            ),
    {
        if let Some(d) = find_function_declarator(c) {
            if let Some((qualifier, name)) = extract_name_from_declarator(d, self.source) {
                let mut f = self.function_of(n, Some(d), qualifier, name);
                f.signature = Some(n.text(self.source));
                f.is_definition = false;
                return Some(f);
            }
        }
        match find_variable_name_node(c) {
            Some(v) => {
                let kind = if scope_declares_fields(&self.scopes) {
                    SymbolKind::Field
                } else {
                    SymbolKind::Variable
                };
                Some(self.plain(v, kind, self.current_visibility()))
            },
            None => None,
        }
    }

    /// The symbols that a declaration declares, one for each declarator.
    fn declarations(&self, n: &SyntaxNode) -> (r: Vec<Definition>)
        ensures
            text::views(r@) == declared_from(
                self.file@,
                self.source@,
                n@,
                0,
                text::views(self.scopes@),
                in_force(top_of(self.visibility@)),
            ),
    {
        let ghost file = self.file@;
        let ghost source = self.source@;
        let ghost scopes = text::views(self.scopes@);
        let ghost v = in_force(top_of(self.visibility@));
        let ghost all = declared_from(file, source, n@, 0, scopes, v);
        let mut r: Vec<Definition> = Vec::new();
        let mut i: usize = 0;
        let mut value = false;
        proof {
            syntax::lemma_node_view(*n);
            assert(text::views(r@) + all =~= all);
        }
        while i < n.children.len()
            invariant
                n@.children.len() == n.children@.len(),
                forall|j: int|
                    0 <= j < n.children@.len() ==> #[trigger] n@.children[j] == n.children@[j]@,
                i <= n.children@.len(),
                file == self.file@,
                source == self.source@,
                scopes == text::views(self.scopes@),
                v == in_force(top_of(self.visibility@)),
                i < n.children@.len() ==> value == is_value(n@, i as int),
                text::views(r@) + declared_from(file, source, n@, i as int, scopes, v) == all,
            decreases n.children@.len() - i,
        {
            let c = &n.children[i];
            assert(n@.children[i as int] == c@);
            let ghost shown = text::views(r@);
            let ghost rest = declared_from(file, source, n@, i + 1, scopes, v);
            let own = if value {
                None
            } else {
                self.declared(n, c)
            };
            match own {
                Some(d) => {
                    proof {
                        text::lemma_views_push(r@, d);
                        assert(shown.push(d@) + rest =~= shown + (seq![d@] + rest));
                    }
                    r.push(d);
                },
                None => {
                    assert(shown + rest =~= shown + (Seq::empty() + rest));
                },
            }
            value = c.tag() == NodeKind::EqualsSign;
            i = i + 1;
        }
        assert(text::views(r@) =~= all);
        r
    }

    /// The symbol that a name node names.
    fn plain(&self, c: &SyntaxNode, kind: SymbolKind, visibility: Visibility) -> (r: Definition)
        ensures
            r@ == symbol(
                syntax::text_of(self.source@, c@),
                kind,
                place(self.file@, c@),
                scope::scope_name(text::views(self.scopes@)),
                visibility,
            ),
    {
        new_symbol(
            c.text(self.source),
            kind,
            location_of(self.file, c),
            current_scope_qualified_name(&self.scopes),
            visibility,
        )
    }

    /// The symbols that a node itself defines or declares.
    fn own_definitions(&self, n: &SyntaxNode) -> (r: Vec<Definition>)
        ensures
            text::views(r@) == own_symbols(
                self.file@,
                self.source@,
                n@,
                text::views(self.scopes@),
                in_force(top_of(self.visibility@)),
            ),
    {
        let own = match n.tag() {
            NodeKind::NamespaceDefinition => self.scope_definition(
                n,
                extract_namespace_name(n, self.source),
                SymbolKind::Namespace,
            ),
            NodeKind::ClassSpecifier => self.scope_definition(
                n,
                extract_typename(n, self.source),
                SymbolKind::Class,
            ),
            NodeKind::StructSpecifier => self.scope_definition(
                n,
                extract_typename(n, self.source),
                SymbolKind::Struct,
            ),
            NodeKind::UnionSpecifier => self.scope_definition(
                n,
                extract_typename(n, self.source),
                SymbolKind::Union,
            ),
            NodeKind::EnumSpecifier => self.scope_definition(
                n,
                extract_typename(n, self.source),
                SymbolKind::Enum,
            ),
            NodeKind::FunctionDefinition => match extract_function_name(n, self.source) {
                Some((qualifier, name)) => {
                    let d = find_own_function_declarator(n);
                    let mut f = self.function_of(n, d, qualifier, name);
                    f.signature = find_function_head(n, self.source);
                    Some(f)
                },
                None => None,
            },
            NodeKind::Declaration | NodeKind::FieldDeclaration => {
                return self.declarations(n);
            },
            NodeKind::PreprocDef | NodeKind::PreprocFunctionDef => match n.child_by_field_name(FieldName::Name) {
                Some(c) => {
                    let mut m = self.plain(c, SymbolKind::Macro, Visibility::Public);
                    m.parent = None;
                    Some(m)
                },
                None => None,
            },
            NodeKind::TypeDefinition => match find_last_type(n) {
                Some(c) => Some(self.plain(c, SymbolKind::Typedef, self.current_visibility())),
                None => None,
            },
            NodeKind::Enumerator => match n.child_by_field_name(FieldName::Name) {
                Some(c) => Some(self.plain(c, SymbolKind::EnumVariant, Visibility::Public)),
                None => None,
            },
            _ => None,
        };
        let mut r: Vec<Definition> = Vec::new();
        match own {
            Some(d) => {
                r.push(d);
                assert(text::views(r@) =~= seq![d@]);
            },
            None => {
                assert(text::views(r@) =~= Seq::empty());
            },
        }
        r
    }
}

/// A tree leaves a visibility in force exactly where one was in force before it.
pub proof fn lemma_visibility_in(
    file: Seq<char>,
    source: Seq<char>,
    t: SyntaxTree,
    scopes: Seq<ScopeView>,
    visibility: Option<Visibility>,
)
    ensures
        found_in(file, source, t, scopes, visibility).visibility is Some <==> visibility is Some,
    decreases t, t.children.len() + 1,
{
    if !is_leaf(t) && opened(source, t) is None {
        lemma_visibility_from(file, source, t, 0, scopes, access_after(source, t, visibility));
    }
}

/// Children leave a visibility in force exactly where one was in force before them.
pub proof fn lemma_visibility_from(
    file: Seq<char>,
    source: Seq<char>,
    t: SyntaxTree,
    i: int,
    scopes: Seq<ScopeView>,
    visibility: Option<Visibility>,
)
    ensures
        found_from(file, source, t, i, scopes, visibility).visibility is Some
            <==> visibility is Some,
    decreases t, t.children.len() - i,
{
    if 0 <= i < t.children.len() {
        lemma_visibility_in(file, source, t.children[i], scopes, visibility);
        let first = found_in(file, source, t.children[i], scopes, visibility);
        lemma_visibility_from(file, source, t, i + 1, scopes, first.visibility);
    }
}

/// Whether a child of a base class clause names a base.
fn is_base_name(k: NodeKind) -> (r: bool)
    ensures
        r == names_base(k),
{
    k == NodeKind::TypeIdentifier || k == NodeKind::Identifier || k
        == NodeKind::QualifiedIdentifier || k == NodeKind::TemplateType || k
        == NodeKind::ParameterizedType || k == NodeKind::ScopedTypeIdentifier || k
        == NodeKind::QualifiedTypeIdentifier
}

impl<'a> DefPass<'a> {
    /// Collects the bases that a base class clause names.
    fn handle_inheritance(&mut self, n: &SyntaxNode)
        requires
            syntax::tag(n@) == NodeKind::BaseClassClause,
        ensures
            final(self).file == old(self).file,
            final(self).source == old(self).source,
            final(self).scopes == old(self).scopes,
            final(self).visibility == old(self).visibility,
            final(self).definitions == old(self).definitions,
            text::views(final(self).inherits@) == text::views(old(self).inherits@) + own_bases(
                old(self).file@,
                old(self).source@,
                n@,
                text::views(old(self).scopes@),
                in_force(top_of(old(self).visibility@)),
            ),
    {
        let depth = self.scopes.len();
        let derived: String = if depth == 0 {
            String::new()
        } else {
            self.scopes[depth - 1].name.clone()
        };
        let default = self.current_visibility();
        let mut access: Option<Visibility> = None;
        let mut is_virtual = false;
        let mut i: usize = 0;
        let ghost file = self.file@;
        let ghost source = self.source@;
        let ghost before = text::views(self.inherits@);
        proof {
            syntax::lemma_node_view(*n);
            assert(depth > 0 ==> text::views(self.scopes@).last().name == derived@);
            assert(depth == 0 ==> derived@ =~= Seq::<char>::empty());
        }
        let ghost all = bases_from(file, source, n@, 0, derived@, default, None, false);
        assert(own_bases(
            old(self).file@,
            old(self).source@,
            n@,
            text::views(old(self).scopes@),
            in_force(top_of(old(self).visibility@)),
        ) == all);
        while i < n.children.len()
            invariant
                n@.children.len() == n.children@.len(),
                forall|j: int|
                    0 <= j < n.children@.len() ==> #[trigger] n@.children[j] == n.children@[j]@,
                i <= n.children@.len(),
                self.file == old(self).file,
                self.source == old(self).source,
                self.scopes == old(self).scopes,
                self.visibility == old(self).visibility,
                self.definitions == old(self).definitions,
                file == self.file@,
                source == self.source@,
                text::views(self.inherits@) + bases_from(
                    file,
                    source,
                    n@,
                    i as int,
                    derived@,
                    default,
                    access,
                    is_virtual,
                ) == before + all,
            decreases n.children@.len() - i,
        {
            let c = &n.children[i];
            assert(n@.children[i as int] == c@);
            let k = c.tag();
            let ghost rest = bases_from(
                file,
                source,
                n@,
                i as int,
                derived@,
                default,
                access,
                is_virtual,
            );
            if k == NodeKind::AccessSpecifier {
                access = extract_access(c, self.source);
            } else if k == NodeKind::Virtual {
                is_virtual = true;
            } else if is_base_name(k) {
                let base_name = c.text(self.source);
                if !base_name.as_str().is_empty() {
                    let edge = InheritEdge {
                        derived_name: derived.clone(),
                        base_name,
                        location: location_of(self.file, c),
                        access: match access {
                            Some(a) => a,
                            None => default,
                        },
                        is_virtual,
                    };
                    let ghost shown = text::views(self.inherits@);
                    let ghost tail = bases_from(
                        file,
                        source,
                        n@,
                        i + 1,
                        derived@,
                        default,
                        None,
                        false,
                    );
                    proof {
                        text::lemma_views_push(self.inherits@, edge);
                        assert(rest == seq![edge@] + tail);
                        assert(shown.push(edge@) + tail =~= shown + rest);
                    }
                    self.inherits.push(edge);
                    access = None;
                    is_virtual = false;
                }
            }
            i = i + 1;
        }
        assert(text::views(self.inherits@) =~= before + all);
    }

    /// Opens a scope.
    fn push_scope(&mut self, scope: Scope, visibility: Visibility)
        ensures
            final(self).file == old(self).file,
            final(self).source == old(self).source,
            final(self).scopes@ == old(self).scopes@.push(scope),
            final(self).visibility@ == old(self).visibility@.push(visibility),
            final(self).definitions == old(self).definitions,
            final(self).inherits == old(self).inherits,
    {
        self.scopes.push(scope);
        self.visibility.push(visibility);
    }

    /// Closes the innermost scope.
    fn pop_scope(&mut self)
        requires
            old(self).scopes@.len() > 0,
            old(self).visibility@.len() > 0,
        ensures
            final(self).file == old(self).file,
            final(self).source == old(self).source,
            final(self).scopes@ == old(self).scopes@.drop_last(),
            final(self).visibility@ == old(self).visibility@.drop_last(),
            final(self).definitions == old(self).definitions,
            final(self).inherits == old(self).inherits,
    {
        self.scopes.pop();
        self.visibility.pop();
    }

    /// Walks a node and all below it.
    pub fn walk_node(&mut self, n: &SyntaxNode)
        ensures
            final(self).file == old(self).file,
            final(self).source == old(self).source,
            final(self).scopes@ == old(self).scopes@,
            ({
                let found = found_in(
                    old(self).file@,
                    old(self).source@,
                    n@,
                    text::views(old(self).scopes@),
                    top_of(old(self).visibility@),
                );
                &&& final(self).visibility@ == with_top(old(self).visibility@, found.visibility)
                &&& text::views(final(self).definitions@) == text::views(old(self).definitions@)
                    + found.definitions
                &&& text::views(final(self).inherits@) == text::views(old(self).inherits@)
                    + found.inherits
            }),
        decreases n, n@.children.len() + 1,
    {
        let ghost file = self.file@;
        let ghost source = self.source@;
        let ghost scopes = text::views(self.scopes@);
        let ghost top = top_of(self.visibility@);
        let k = n.tag();
        if is_identifier(k) {
            proof {
                assert(text::views(self.definitions@) + Seq::empty() =~= text::views(
                    self.definitions@,
                ));
                assert(text::views(self.inherits@) + Seq::empty() =~= text::views(self.inherits@));
                assert(with_top(self.visibility@, top) =~= self.visibility@);
            }
            return;
        }
        let ghost own = own_symbols(file, source, n@, scopes, in_force(top));
        let ghost bases = own_bases(file, source, n@, scopes, in_force(top));
        let mut own_definitions = self.own_definitions(n);
        assert(text::views(self.definitions@ + own_definitions@) =~= text::views(
            self.definitions@,
        ) + own);
        self.definitions.append(&mut own_definitions);
        if k == NodeKind::BaseClassClause {
            self.handle_inheritance(n);
        } else {
            assert(text::views(self.inherits@) =~= text::views(self.inherits@) + bases);
        }
        assert(text::views(self.definitions@) == text::views(old(self).definitions@) + own);
        assert(text::views(self.inherits@) == text::views(old(self).inherits@) + bases);
        match scope_opened(n, self.source) {
            Some((s, v)) => {
                let ghost inner = found_from(file, source, n@, 0, scopes.push(s@), Some(v));
                proof {
                    text::lemma_views_push(self.scopes@, s);
                    lemma_visibility_from(file, source, n@, 0, scopes.push(s@), Some(v));
                }
                self.push_scope(s, v);
                self.walk_children(n);
                proof {
                    assert(self.scopes@.drop_last() =~= old(self).scopes@);
                    assert(self.visibility@.drop_last() =~= old(self).visibility@);
                }
                self.pop_scope();
                proof {
                    assert(with_top(old(self).visibility@, top) =~= old(self).visibility@);
                    assert(text::views(old(self).definitions@) + own + inner.definitions
                        =~= text::views(old(self).definitions@) + (own + inner.definitions));
                    assert(text::views(old(self).inherits@) + bases + inner.inherits =~= text::views(
                        old(self).inherits@,
                    ) + (bases + inner.inherits));
                }
            },
            None => {
                if k == NodeKind::AccessSpecifier {
                    if let Some(v) = extract_access(n, self.source) {
                        let depth = self.visibility.len();
                        if depth > 0 {
                            self.visibility.set(depth - 1, v);
                        }
                    }
                }
                let ghost after = access_after(source, n@, top);
                let ghost inner = found_from(file, source, n@, 0, scopes, after);
                proof {
                    assert(self.visibility@ =~= with_top(old(self).visibility@, after));
                    assert(top_of(self.visibility@) == after);
                }
                let before = self.current_visibility();
                self.walk_children(n);
                if k == NodeKind::BaseClassClause {
                    let depth = self.visibility.len();
                    if depth > 0 {
                        self.visibility.set(depth - 1, before);
                    }
                }
                proof {
                    lemma_visibility_from(file, source, n@, 0, scopes, after);
                    let end = if k == NodeKind::BaseClassClause {
                        top
                    } else {
                        inner.visibility
                    };
                    assert(self.visibility@ =~= with_top(old(self).visibility@, end));
                    assert(text::views(old(self).definitions@) + own + inner.definitions
                        =~= text::views(old(self).definitions@) + (own + inner.definitions));
                    assert(text::views(old(self).inherits@) + bases + inner.inherits =~= text::views(
                        old(self).inherits@,
                    ) + (bases + inner.inherits));
                }
            },
        }
    }

    /// Walks the children of a node.
    fn walk_children(&mut self, n: &SyntaxNode)
        ensures
            final(self).file == old(self).file,
            final(self).source == old(self).source,
            final(self).scopes@ == old(self).scopes@,
            ({
                let found = found_from(
                    old(self).file@,
                    old(self).source@,
                    n@,
                    0,
                    text::views(old(self).scopes@),
                    top_of(old(self).visibility@),
                );
                &&& final(self).visibility@ == with_top(old(self).visibility@, found.visibility)
                &&& text::views(final(self).definitions@) == text::views(old(self).definitions@)
                    + found.definitions
                &&& text::views(final(self).inherits@) == text::views(old(self).inherits@)
                    + found.inherits
            }),
        decreases n, n@.children.len(),
    {
        let ghost file = self.file@;
        let ghost source = self.source@;
        let ghost scopes = text::views(self.scopes@);
        let ghost stack = self.visibility@;
        let ghost definitions = text::views(self.definitions@);
        let ghost inherits = text::views(self.inherits@);
        let ghost all = found_from(file, source, n@, 0, scopes, top_of(stack));
        let mut i: usize = 0;
        proof {
            syntax::lemma_node_view(*n);
            assert(with_top(stack, top_of(stack)) =~= stack);
        }
        while i < n.children.len()
            invariant
                n@.children.len() == n.children@.len(),
                forall|j: int|
                    0 <= j < n.children@.len() ==> #[trigger] n@.children[j] == n.children@[j]@
                        && decreases_to!(n => n.children@[j]),
                i <= n.children@.len(),
                self.file == old(self).file,
                self.source == old(self).source,
                self.scopes@ == old(self).scopes@,
                file == self.file@,
                source == self.source@,
                scopes == text::views(self.scopes@),
                self.visibility@.len() == stack.len(),
                ({
                    let rest = found_from(
                        file,
                        source,
                        n@,
                        i as int,
                        scopes,
                        top_of(self.visibility@),
                    );
                    &&& rest.visibility == all.visibility
                    &&& self.visibility@ == with_top(stack, top_of(self.visibility@))
                    &&& text::views(self.definitions@) + rest.definitions == definitions
                        + all.definitions
                    &&& text::views(self.inherits@) + rest.inherits == inherits + all.inherits
                }),
            decreases n.children@.len() - i,
        {
            let c = &n.children[i];
            assert(n@.children[i as int] == c@);
            let ghost top = top_of(self.visibility@);
            let ghost first = found_in(file, source, c@, scopes, top);
            let ghost rest = found_from(file, source, n@, i as int, scopes, top);
            let ghost shown = text::views(self.definitions@);
            let ghost edges = text::views(self.inherits@);
            let ghost before = self.visibility@;
            self.walk_node(c);
            proof {
                lemma_visibility_in(file, source, c@, scopes, top);
                assert(top_of(self.visibility@) == first.visibility);
                let next = found_from(file, source, n@, i + 1, scopes, first.visibility);
                assert(rest.definitions == first.definitions + next.definitions);
                assert(rest.inherits == first.inherits + next.inherits);
                assert(shown + first.definitions + next.definitions =~= shown + (first.definitions
                    + next.definitions));
                assert(edges + first.inherits + next.inherits =~= edges + (first.inherits
                    + next.inherits));
                assert(self.visibility@ =~= with_top(stack, first.visibility));
            }
            i = i + 1;
        }
        proof {
            let rest = found_from(file, source, n@, i as int, scopes, top_of(self.visibility@));
            assert(rest.definitions.len() == 0 && rest.inherits.len() == 0);
            assert(text::views(self.definitions@) =~= definitions + all.definitions);
            assert(text::views(self.inherits@) =~= inherits + all.inherits);
        }
    }
}

} // verus!
