//! Where a syntax tree writes the name of what it declares.
use crate::syntax::{FieldName, NodeKind, SyntaxNode, SyntaxTree};
use crate::syntax;
use crate::text::{same, simple_name, split_last};
use crate::text;
use crate::types::{SymbolKind, Visibility};
use vstd::prelude::*;

verus! {

/// The kinds of node that wrap another declarator.
pub open spec fn wraps(k: NodeKind) -> bool {
    k == NodeKind::FunctionDeclarator || k == NodeKind::ArrayDeclarator || k
        == NodeKind::PointerDeclarator || k == NodeKind::ReferenceDeclarator
}

/// The kinds of node whose whole text is the name of a declarator.
pub open spec fn is_declared_name(k: NodeKind) -> bool {
    k == NodeKind::Identifier || k == NodeKind::FieldIdentifier || k == NodeKind::TypeIdentifier
        || k == NodeKind::DestructorName
}

/// Whether a node is one whose text names a declarator.
fn declares_name(k: NodeKind) -> (r: bool)
    ensures
        r == is_declared_name(k),
{
    k == NodeKind::Identifier || k == NodeKind::FieldIdentifier || k == NodeKind::TypeIdentifier
        || k == NodeKind::DestructorName
}

/// The declarator inside another: its `declarator` field; without one the first child of a
/// wrapping declarator, and the `name` field of any other node. With `deep`, a node that has
/// neither field is followed to its first child.
pub open spec fn inner_declarator(t: SyntaxTree, deep: bool) -> Option<SyntaxTree> {
    if syntax::field_child(t, FieldName::Declarator) is Some {
        syntax::field_child(t, FieldName::Declarator)
    } else if wraps(syntax::tag(t)) {
        syntax::child_at(t, 0)
    } else if syntax::field_child(t, FieldName::Name) is Some {
        syntax::field_child(t, FieldName::Name)
    } else if deep {
        syntax::child_at(t, 0)
    } else {
        None
    }
}

/// A child is smaller than its parent.
pub proof fn lemma_inner_declarator(t: SyntaxTree, deep: bool)
    ensures
        inner_declarator(t, deep) matches Some(c) ==> decreases_to!(t => c),
{
    if inner_declarator(t, deep) is Some {
        let c = inner_declarator(t, deep)->0;
        assert(exists|i: int| 0 <= i < t.children.len() && c == t.children[i]) by {
            assert(c == t.children[0] || c == t.children[syntax::field_from(t, FieldName::Declarator, 0)] || c
                == t.children[syntax::field_from(t, FieldName::Name, 0)]);
        }
        let i = choose|i: int| 0 <= i < t.children.len() && c == t.children[i];
        assert(decreases_to!(t => t.children));
        assert(decreases_to!(t.children => t.children[i]));
    }
}

/// The first child of a node.
fn first_child(n: &SyntaxNode) -> (r: Option<&SyntaxNode>)
    ensures
        match r {
            Some(c) => syntax::child_at(n@, 0) == Some(c@) && decreases_to!(n => c),
            None => syntax::child_at(n@, 0) is None,
        },
{
    proof {
        syntax::lemma_node_view(*n);
    }
    if n.children.len() > 0 {
        assert(n@.children[0] == n.children@[0]@);
        Some(&n.children[0])
    } else {
        None
    }
}

/// The declarator inside another.
fn declarator_inside(n: &SyntaxNode, deep: bool) -> (r: Option<&SyntaxNode>)
    ensures
        match r {
            Some(c) => inner_declarator(n@, deep) == Some(c@) && decreases_to!(n => c),
            None => inner_declarator(n@, deep) is None,
        },
{
    if let Some(c) = n.child_by_field_name(FieldName::Declarator) {
        return Some(c);
    }
    let k = n.tag();
    if k == NodeKind::FunctionDeclarator || k == NodeKind::ArrayDeclarator || k
        == NodeKind::PointerDeclarator || k == NodeKind::ReferenceDeclarator {
        return first_child(n);
    }
    if let Some(c) = n.child_by_field_name(FieldName::Name) {
        return Some(c);
    }
    if deep {
        first_child(n)
    } else {
        None
    }
}

/// The last of the first `i` children that names a declarator.
pub open spec fn last_name_child(t: SyntaxTree, i: int) -> Option<SyntaxTree>
    decreases i,
{
    if i <= 0 || i > t.children.len() {
        None
    } else if is_declared_name(syntax::tag(t.children[i - 1])) {
        Some(t.children[i - 1])
    } else {
        last_name_child(t, i - 1)
    }
}

/// The node that holds the name of a declarator.
pub open spec fn declarator_name_node(t: SyntaxTree) -> Option<SyntaxTree>
    decreases t,
{
    if is_declared_name(syntax::tag(t)) {
        Some(t)
    } else if syntax::tag(t) == NodeKind::QualifiedIdentifier {
        match syntax::field_child(t, FieldName::Name) {
            Some(n) => Some(n),
            None => last_name_child(t, t.children.len() as int),
        }
    } else {
        match inner_declarator(t, false) {
            Some(c) => {
                proof {
                    lemma_inner_declarator(t, false);
                }
                declarator_name_node(c)
            },
            None => None,
        }
    }
}

/// The node that holds the name of a declarator.
pub fn find_declarator_name_node(n: &SyntaxNode) -> (r: Option<&SyntaxNode>)
    ensures
        text::view_opt(r) == declarator_name_node(n@),
    decreases n,
{
    let k = n.tag();
    if declares_name(k) {
        return Some(n);
    }
    if k == NodeKind::QualifiedIdentifier {
        if let Some(c) = n.child_by_field_name(FieldName::Name) {
            return Some(c);
        }
        let mut i: usize = n.children.len();
        proof {
            syntax::lemma_node_view(*n);
        }
        while i > 0
            invariant
                n@.children.len() == n.children@.len(),
                forall|j: int|
                    0 <= j < n.children@.len() ==> #[trigger] n@.children[j] == n.children@[j]@,
                i <= n.children@.len(),
                last_name_child(n@, n@.children.len() as int) == last_name_child(n@, i as int),
                syntax::tag(n@) == NodeKind::QualifiedIdentifier,
                syntax::field_child(n@, FieldName::Name) is None,
            decreases i,
        {
            i = i - 1;
            let c = &n.children[i];
            assert(n@.children[i as int] == c@);
            if declares_name(c.tag()) {
                return Some(c);
            }
        }
        return None;
    }
    match declarator_inside(n, false) {
        Some(c) => find_declarator_name_node(c),
        None => None,
    }
}

/// A qualified name cut at its last scope separator, unless nothing stands behind that.
pub open spec fn cut_qualified(s: Seq<char>) -> Option<(Option<Seq<char>>, Seq<char>)> {
    match text::last_sep(s) {
        Some(i) => if text::simple(s).len() > 0 {
            Some((Some(s.take(i)), text::simple(s)))
        } else {
            None
        },
        None => None,
    }
}

/// The qualifier and the name that a declarator declares.
pub open spec fn declared_name(source: Seq<char>, t: SyntaxTree) -> Option<
    (Option<Seq<char>>, Seq<char>),
>
    decreases t,
{
    if is_declared_name(syntax::tag(t)) {
        Some((None, syntax::text_of(source, t)))
    } else if syntax::tag(t) == NodeKind::QualifiedIdentifier {
        cut_qualified(syntax::text_of(source, t))
    } else {
        match inner_declarator(t, true) {
            Some(c) => {
                proof {
                    lemma_inner_declarator(t, true);
                }
                declared_name(source, c)
            },
            None => None,
        }
    }
}

/// A qualifier and a name as texts.
pub open spec fn name_view(r: Option<(Option<String>, String)>) -> Option<
    (Option<Seq<char>>, Seq<char>),
> {
    match r {
        Some((q, n)) => Some((text::view_opt(q), n@)),
        None => None,
    }
}

/// Walks the declarator chain to the name. The qualifier is the scope prefix of an
/// out-of-class definition such as `Derived::run`.
pub fn extract_name_from_declarator(n: &SyntaxNode, source: &str) -> (r: Option<
    (Option<String>, String),
>)
    ensures
        name_view(r) == declared_name(source@, n@),
    decreases n,
{
    let k = n.tag();
    if declares_name(k) {
        return Some((None, n.text(source)));
    }
    if k == NodeKind::QualifiedIdentifier {
        let text = n.text(source);
        return match split_last(text.as_str()) {
            Some((qualifier, name)) => if name.as_str().is_empty() {
                None
            } else {
                Some((Some(qualifier), name))
            },
            None => None,
        };
    }
    match declarator_inside(n, true) {
        Some(c) => extract_name_from_declarator(c, source),
        None => None,
    }
}

/// The name declared by the first child from position `i` on that declares one other than the
/// whole text.
pub open spec fn function_name_from(source: Seq<char>, t: SyntaxTree, i: int) -> Option<
    (Option<Seq<char>>, Seq<char>),
>
    decreases t.children.len() - i,
{
    if i >= t.children.len() {
        None
    } else {
        match declared_name(source, t.children[i]) {
            Some((q, n)) => if n != syntax::text_of(source, t) {
                Some((q, n))
            } else {
                function_name_from(source, t, i + 1)
            },
            None => function_name_from(source, t, i + 1),
        }
    }
}

/// The declarator that a pointer or reference declarator wraps: its `declarator` field, else its
/// last child.
pub open spec fn wrapped_declarator(t: SyntaxTree) -> Option<SyntaxTree> {
    match syntax::field_child(t, FieldName::Declarator) {
        Some(c) => Some(c),
        None => syntax::child_at(t, t.children.len() - 1),
    }
}

/// A child is smaller than its parent.
pub proof fn lemma_wrapped_declarator(t: SyntaxTree)
    ensures
        wrapped_declarator(t) matches Some(c) ==> decreases_to!(t => c),
{
    if wrapped_declarator(t) is Some {
        let c = wrapped_declarator(t)->0;
        let k = syntax::field_from(t, FieldName::Declarator, 0);
        let i = if 0 <= k < t.children.len() {
            k
        } else {
            t.children.len() - 1
        };
        assert(c == t.children[i]);
        assert(decreases_to!(t => t.children));
        assert(decreases_to!(t.children => t.children[i]));
    }
}

/// The declarator that a pointer or reference declarator wraps.
fn find_wrapped_declarator(n: &SyntaxNode) -> (r: Option<&SyntaxNode>)
    ensures
        match r {
            Some(c) => wrapped_declarator(n@) == Some(c@) && decreases_to!(n => c),
            None => wrapped_declarator(n@) is None,
        },
{
    if let Some(c) = n.child_by_field_name(FieldName::Declarator) {
        return Some(c);
    }
    proof {
        syntax::lemma_node_view(*n);
    }
    let count = n.children.len();
    if count > 0 {
        assert(n@.children[count - 1] == n.children@[count - 1]@);
        Some(&n.children[count - 1])
    } else {
        None
    }
}

/// The function declarator that a declarator is or that it wraps as a pointer or a reference.
pub open spec fn function_declarator(t: SyntaxTree) -> Option<SyntaxTree>
    decreases t,
{
    let k = syntax::tag(t);
    if k == NodeKind::FunctionDeclarator {
        Some(t)
    } else if k == NodeKind::PointerDeclarator || k == NodeKind::ReferenceDeclarator {
        match wrapped_declarator(t) {
            Some(c) => {
                proof {
                    lemma_wrapped_declarator(t);
                }
                function_declarator(c)
            },
            None => None,
        }
    } else {
        None
    }
}

/// The function declarator that a declarator is or that it wraps as a pointer or a reference.
pub fn find_function_declarator(n: &SyntaxNode) -> (r: Option<&SyntaxNode>)
    ensures
        text::view_opt(r) == function_declarator(n@),
    decreases n,
{
    let k = n.tag();
    if k == NodeKind::FunctionDeclarator {
        return Some(n);
    }
    if k == NodeKind::PointerDeclarator || k == NodeKind::ReferenceDeclarator {
        return match find_wrapped_declarator(n) {
            Some(c) => find_function_declarator(c),
            None => None,
        };
    }
    None
}

/// The first function declarator among the declarators of a node, from the child at position
/// `i` on.
pub open spec fn function_declarator_from(t: SyntaxTree, i: int) -> Option<SyntaxTree>
    decreases t.children.len() - i,
{
    if i < 0 || i >= t.children.len() {
        None
    } else if function_declarator(t.children[i]) is Some {
        function_declarator(t.children[i])
    } else {
        function_declarator_from(t, i + 1)
    }
}

/// The first function declarator among the declarators of a node.
pub fn find_own_function_declarator(n: &SyntaxNode) -> (r: Option<&SyntaxNode>)
    ensures
        text::view_opt(r) == function_declarator_from(n@, 0),
{
    let mut i: usize = 0;
    proof {
        syntax::lemma_node_view(*n);
    }
    while i < n.children.len()
        invariant
            n@.children.len() == n.children@.len(),
            forall|j: int|
                0 <= j < n.children@.len() ==> #[trigger] n@.children[j] == n.children@[j]@,
            i <= n.children@.len(),
            function_declarator_from(n@, 0) == function_declarator_from(n@, i as int),
        decreases n.children@.len() - i,
    {
        let c = &n.children[i];
        assert(n@.children[i as int] == c@);
        if let Some(d) = find_function_declarator(c) {
            return Some(d);
        }
        i = i + 1;
    }
    None
}

/// The qualifier and the name of a function definition.
pub open spec fn function_name(source: Seq<char>, t: SyntaxTree) -> Option<
    (Option<Seq<char>>, Seq<char>),
> {
    match function_declarator_from(t, 0) {
        Some(d) => declared_name(source, d),
        None => function_name_from(source, t, 0),
    }
}

/// The qualifier and the name of a function definition.
pub fn extract_function_name(n: &SyntaxNode, source: &str) -> (r: Option<(Option<String>, String)>)
    ensures
        name_view(r) == function_name(source@, n@),
{
    if let Some(d) = find_own_function_declarator(n) {
        return extract_name_from_declarator(d, source);
    }
    let whole = n.text(source);
    let mut i: usize = 0;
    proof {
        syntax::lemma_node_view(*n);
    }
    while i < n.children.len()
        invariant
            n@.children.len() == n.children@.len(),
            forall|j: int|
                0 <= j < n.children@.len() ==> #[trigger] n@.children[j] == n.children@[j]@,
            i <= n.children@.len(),
            whole@ == syntax::text_of(source@, n@),
            function_declarator_from(n@, 0) is None,
            function_name_from(source@, n@, 0) == function_name_from(source@, n@, i as int),
        decreases n.children@.len() - i,
    {
        let c = &n.children[i];
        assert(n@.children[i as int] == c@);
        if let Some((q, name)) = extract_name_from_declarator(c, source) {
            if !same(name.as_str(), whole.as_str()) {
                return Some((q, name));
            }
        }
        i = i + 1;
    }
    None
}

/// The position of the first child of one of two kinds, from position `i` on.
pub open spec fn either_from(t: SyntaxTree, a: NodeKind, b: NodeKind, i: int) -> int
    decreases t.children.len() - i,
{
    if i >= t.children.len() || syntax::tag(t.children[i]) == a || syntax::tag(t.children[i]) == b {
        i
    } else {
        either_from(t, a, b, i + 1)
    }
}

/// The text of the `name` field where it has one; else of the first child of one of two kinds.
pub open spec fn name_or_child(source: Seq<char>, t: SyntaxTree, a: NodeKind, b: NodeKind) -> Option<
    Seq<char>,
> {
    match syntax::field_child(t, FieldName::Name) {
        Some(n) if syntax::text_of(source, n).len() > 0 => Some(syntax::text_of(source, n)),
        _ => match syntax::child_at(t, either_from(t, a, b, 0)) {
            Some(c) => Some(syntax::text_of(source, c)),
            None => None,
        },
    }
}

/// The text of the `name` field where it has one; else of the first child of one of two kinds.
fn extract_name_or_child(n: &SyntaxNode, source: &str, a: NodeKind, b: NodeKind) -> (r: Option<
    String,
>)
    ensures
        text::view_opt(r) == name_or_child(source@, n@, a, b),
{
    if let Some(c) = n.child_by_field_name(FieldName::Name) {
        let text = c.text(source);
        if !text.as_str().is_empty() {
            return Some(text);
        }
    }
    let mut i: usize = 0;
    proof {
        syntax::lemma_node_view(*n);
    }
    while i < n.children.len()
        invariant
            n@.children.len() == n.children@.len(),
            forall|j: int|
                0 <= j < n.children@.len() ==> #[trigger] n@.children[j] == n.children@[j]@,
            i <= n.children@.len(),
            syntax::field_child(n@, FieldName::Name) matches Some(f) ==> syntax::text_of(source@, f).len() == 0,
            either_from(n@, a, b, 0) == either_from(n@, a, b, i as int),
        decreases n.children@.len() - i,
    {
        let c = &n.children[i];
        assert(n@.children[i as int] == c@);
        let k = c.tag();
        if k == a || k == b {
            return Some(c.text(source));
        }
        i = i + 1;
    }
    None
}

/// The name of a class, struct, union or enum.
pub open spec fn typename(source: Seq<char>, t: SyntaxTree) -> Option<Seq<char>> {
    name_or_child(source, t, NodeKind::TypeIdentifier, NodeKind::Identifier)
}

/// The name of a class, struct, union or enum.
pub fn extract_typename(n: &SyntaxNode, source: &str) -> (r: Option<String>)
    ensures
        text::view_opt(r) == typename(source@, n@),
{
    extract_name_or_child(n, source, NodeKind::TypeIdentifier, NodeKind::Identifier)
}

/// The name of a namespace; `a::b` for a nested one.
pub open spec fn namespace_name(source: Seq<char>, t: SyntaxTree) -> Option<Seq<char>> {
    name_or_child(source, t, NodeKind::NestedNamespaceSpecifier, NodeKind::QualifiedIdentifier)
}

/// The name of a namespace; `a::b` for a nested one.
pub fn extract_namespace_name(n: &SyntaxNode, source: &str) -> (r: Option<String>)
    ensures
        text::view_opt(r) == namespace_name(source@, n@),
{
    extract_name_or_child(
        n,
        source,
        NodeKind::NestedNamespaceSpecifier,
        NodeKind::QualifiedIdentifier,
    )
}

/// The kinds of node that can hold a name: those of variables and fields or, with `any`, those
/// of every symbol.
pub open spec fn holds_name(k: NodeKind, any: bool) -> bool {
    k == NodeKind::Identifier || k == NodeKind::FieldIdentifier || any && (k
        == NodeKind::TypeIdentifier || k == NodeKind::NamespaceIdentifier || k
        == NodeKind::DestructorName)
}

/// The first node that holds a name, in reading order, from the child at position `i` on.
pub open spec fn name_below(t: SyntaxTree, any: bool, i: int) -> Option<SyntaxTree>
    decreases t, t.children.len() - i,
{
    if i < 0 || i >= t.children.len() {
        None
    } else {
        let c = t.children[i];
        if holds_name(syntax::tag(c), any) {
            Some(c)
        } else {
            match name_below(c, any, 0) {
                Some(f) => Some(f),
                None => name_below(t, any, i + 1),
            }
        }
    }
}

/// The first node below another that holds a name, in reading order.
pub fn descendant_with_name(n: &SyntaxNode, any: bool) -> (r: Option<&SyntaxNode>)
    ensures
        text::view_opt(r) == name_below(n@, any, 0),
    decreases n,
{
    let mut i: usize = 0;
    proof {
        syntax::lemma_node_view(*n);
    }
    while i < n.children.len()
        invariant
            n@.children.len() == n.children@.len(),
            forall|j: int|
                0 <= j < n.children@.len() ==> #[trigger] n@.children[j] == n.children@[j]@
                    && decreases_to!(n => n.children@[j]),
            i <= n.children@.len(),
            name_below(n@, any, 0) == name_below(n@, any, i as int),
        decreases n.children@.len() - i,
    {
        let c = &n.children[i];
        assert(n@.children[i as int] == c@);
        let k = c.tag();
        if k == NodeKind::Identifier || k == NodeKind::FieldIdentifier || any && (k
            == NodeKind::TypeIdentifier || k == NodeKind::NamespaceIdentifier || k
            == NodeKind::DestructorName) {
            return Some(c);
        }
        if let Some(f) = descendant_with_name(c, any) {
            return Some(f);
        }
        i = i + 1;
    }
    None
}

/// The node that names a symbol: its `name` field, else the first node below it that holds a
/// name.
pub open spec fn name_node(t: SyntaxTree) -> Option<SyntaxTree> {
    match syntax::field_child(t, FieldName::Name) {
        Some(n) => Some(n),
        None => name_below(t, true, 0),
    }
}

/// The node that names a symbol.
pub fn find_name_node(n: &SyntaxNode) -> (r: Option<&SyntaxNode>)
    ensures
        text::view_opt(r) == name_node(n@),
{
    if let Some(c) = n.child_by_field_name(FieldName::Name) {
        return Some(c);
    }
    descendant_with_name(n, true)
}

/// The visibility that the text of an access specifier sets.
pub open spec fn access_named(s: Seq<char>) -> Option<Visibility> {
    if s == "public:"@ || s == "public"@ {
        Some(Visibility::Public)
    } else if s == "protected:"@ || s == "protected"@ {
        Some(Visibility::Protected)
    } else if s == "private:"@ || s == "private"@ {
        Some(Visibility::Private)
    } else {
        None
    }
}

/// The visibility that an access specifier sets.
pub fn extract_access(n: &SyntaxNode, source: &str) -> (r: Option<Visibility>)
    ensures
        r == access_named(syntax::text_of(source@, n@)),
{
    let text = n.text(source);
    let s = text.as_str();
    if same(s, "public:") || same(s, "public") {
        Some(Visibility::Public)
    } else if same(s, "protected:") || same(s, "protected") {
        Some(Visibility::Protected)
    } else if same(s, "private:") || same(s, "private") {
        Some(Visibility::Private)
    } else {
        None
    }
}

/// The kind of a function: a destructor by its name, a constructor where it is named like the
/// innermost part of its parent.
pub open spec fn function_kind(name: Seq<char>, parent: Option<Seq<char>>, is_method: bool) -> SymbolKind {
    let class_name = match parent {
        Some(p) => text::simple(p),
        None => Seq::empty(),
    };
    if name.len() > 0 && name[0] == '~' {
        SymbolKind::Destructor
    } else if !is_method {
        SymbolKind::Function
    } else if name == class_name {
        SymbolKind::Constructor
    } else {
        SymbolKind::Method
    }
}

/// The kind of a function.
pub fn classify_function(name: &str, parent: &Option<String>, is_method: bool) -> (r: SymbolKind)
    ensures
        r == function_kind(name@, text::view_opt(*parent), is_method),
{
    let class_name = match parent {
        Some(p) => simple_name(p.as_str()),
        None => String::new(),
    };
    if crate::text::starts_with(name, "~") {
        proof {
            reveal_strlit("~");
            assert("~"@.len() == 1 && "~"@[0] == '~');
            assert(name@.subrange(0, 1)[0] == name@[0]);
        }
        return SymbolKind::Destructor;
    }
    proof {
        reveal_strlit("~");
        assert("~"@.len() == 1 && "~"@[0] == '~');
        if name@.len() > 0 && name@[0] == '~' {
            assert(name@.subrange(0, 1) =~= "~"@);
        }
    }
    if !is_method {
        SymbolKind::Function
    } else if same(name, class_name.as_str()) {
        SymbolKind::Constructor
    } else {
        SymbolKind::Method
    }
}

} // verus!
