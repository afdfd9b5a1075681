//! Scopes that surround a declaration, and the names that they give it.
use crate::text::{join_texts, scoped_name};
use crate::text;
use crate::types::SymbolKind;
use vstd::prelude::*;

verus! {

/// A namespace, class or enum that surrounds a declaration. An unnamed one has an empty name.
pub struct Scope {
    pub name: String,
    pub kind: SymbolKind,
}

/// A namespace, class or enum that surrounds a declaration.
pub struct ScopeView {
    pub name: Seq<char>,
    pub kind: SymbolKind,
}

impl View for Scope {
    type V = ScopeView;

    open spec fn view(&self) -> ScopeView {
        ScopeView { name: self.name@, kind: self.kind }
    }
}

/// The names of the named scopes, outermost first.
pub open spec fn scope_names(scopes: Seq<ScopeView>) -> Seq<Seq<char>>
    decreases scopes.len(),
{
    if scopes.len() == 0 {
        Seq::empty()
    } else if scopes.last().name.len() == 0 {
        scope_names(scopes.drop_last())
    } else {
        scope_names(scopes.drop_last()).push(scopes.last().name)
    }
}

/// The qualified name of the innermost scope, where a named one is open.
pub open spec fn scope_name(scopes: Seq<ScopeView>) -> Option<Seq<char>> {
    if scope_names(scopes).len() == 0 {
        None
    } else {
        Some(text::join(scope_names(scopes), "::"@))
    }
}

/// A name below a parent.
pub open spec fn name_in(parent: Option<Seq<char>>, name: Seq<char>) -> Seq<char> {
    match parent {
        Some(p) => text::scoped(p, name),
        None => name,
    }
}

/// The parent of a symbol that is written with a qualifier of its own.
pub open spec fn qualified_parent(
    scopes: Seq<ScopeView>,
    qualifier: Option<Seq<char>>,
) -> Option<Seq<char>> {
    match qualifier {
        Some(q) if q.len() > 0 => Some(name_in(scope_name(scopes), q)),
        _ => scope_name(scopes),
    }
}

/// Whether a class or struct is among the scopes.
pub open spec fn in_type(scopes: Seq<ScopeView>) -> bool {
    exists|i: int|
        0 <= i < scopes.len() && (#[trigger] scopes[i].kind == SymbolKind::Class || scopes[i].kind
            == SymbolKind::Struct)
}

/// Whether a variable that is declared directly in the innermost scope is a member of a type.
pub open spec fn declares_fields(scopes: Seq<ScopeView>) -> bool {
    scopes.len() > 0 && (scopes.last().kind == SymbolKind::Class || scopes.last().kind
        == SymbolKind::Struct || scopes.last().kind == SymbolKind::Enum)
}

/// The qualified name of the innermost scope, where a named one is open.
pub fn current_scope_qualified_name(scopes: &Vec<Scope>) -> (r: Option<String>)
    ensures
        text::view_opt(r) == scope_name(text::views(scopes@)),
{
    let mut names: Vec<String> = Vec::new();
    let mut i: usize = 0;
    let ghost all = text::views(scopes@);
    while i < scopes.len()
        invariant
            all == text::views(scopes@),
            i <= scopes@.len(),
            text::views(names@) == scope_names(all.take(i as int)),
        decreases scopes@.len() - i,
    {
        let name = scopes[i].name.clone();
        proof {
            assert(all.take(i + 1).drop_last() =~= all.take(i as int));
            assert(all.take(i + 1).last() == scopes@[i as int]@);
            text::lemma_views_push(names@, name);
        }
        if !name.as_str().is_empty() {
            names.push(name);
        }
        i = i + 1;
    }
    assert(all.take(i as int) =~= all);
    if names.len() == 0 {
        None
    } else {
        Some(join_texts(&names, "::"))
    }
}

/// A name below a parent.
pub fn name_below_parent(parent: &Option<String>, name: &str) -> (r: String)
    ensures
        r@ == name_in(text::view_opt(*parent), name@),
{
    match parent {
        Some(p) => scoped_name(p.as_str(), name),
        None => name.to_owned(),
    }
}

/// The parent of a symbol that is written with a qualifier of its own.
pub fn parent_with_qualifier(scopes: &Vec<Scope>, qualifier: &Option<String>) -> (r: Option<String>)
    ensures
        text::view_opt(r) == qualified_parent(text::views(scopes@), text::view_opt(*qualifier)),
{
    let scope = current_scope_qualified_name(scopes);
    match qualifier {
        Some(q) => if q.as_str().is_empty() {
            scope
        } else {
            Some(name_below_parent(&scope, q.as_str()))
        },
        None => scope,
    }
}

/// Whether a class or struct is among the scopes.
pub fn is_in_type_scope(scopes: &Vec<Scope>) -> (r: bool)
    ensures
        r == in_type(text::views(scopes@)),
{
    let mut i: usize = 0;
    let ghost all = text::views(scopes@);
    while i < scopes.len()
        invariant
            all == text::views(scopes@),
            i <= scopes@.len(),
            forall|j: int|
                0 <= j < i ==> (#[trigger] all[j]).kind != SymbolKind::Class && all[j].kind
                    != SymbolKind::Struct,
        decreases scopes@.len() - i,
    {
        assert(all[i as int].kind == scopes@[i as int].kind);
        if scopes[i].kind == SymbolKind::Class || scopes[i].kind == SymbolKind::Struct {
            return true;
        }
        i = i + 1;
    }
    false
}

/// Whether a variable that is declared directly in the innermost scope is a member of a type.
pub fn scope_declares_fields(scopes: &Vec<Scope>) -> (r: bool)
    ensures
        r == declares_fields(text::views(scopes@)),
{
    let n = scopes.len();
    if n == 0 {
        return false;
    }
    let kind = scopes[n - 1].kind;
    assert(text::views(scopes@).last().kind == kind);
    kind == SymbolKind::Class || kind == SymbolKind::Struct || kind == SymbolKind::Enum
}

} // verus!
