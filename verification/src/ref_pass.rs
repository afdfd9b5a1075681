//! The reference pass: walks a syntax tree and collects calls and references.
use crate::def_pass::{is_identifier, location_of, scope_opened};
use crate::def_pass;
use crate::language::ReferenceMode;
use crate::lookup::LocationSet;
use crate::names::extract_function_name;
use crate::names;
use crate::scope::{Scope, ScopeView, name_below_parent, parent_with_qualifier};
use crate::scope;
use crate::syntax::{FieldName, NodeKind, SyntaxNode, SyntaxTree};
use crate::syntax;
use crate::text::{last_part_of, same};
use crate::text;
use crate::types::{CallEdge, CallEdgeView, Reference, ReferenceView, SymbolKind};
use vstd::prelude::*;
use vstd::string::*;
use vstd::utf8::*;

verus! {

/// No reference has a name of more bytes than this.
pub const MAX_NAME_BYTES: usize = 256;

/// What the reference pass is told of a file: its path and text, the places at which it defines
/// something, and what to keep.
pub struct RefEnv {
    pub file: Seq<char>,
    pub source: Seq<char>,
    pub defined: Set<(usize, usize)>,
    pub mode: ReferenceMode,
    pub with_context: bool,
}

/// What the reference pass finds, the places at which the called names stand, call by call, and
/// the places at which a call was recorded as a reference.
pub struct Uses {
    pub references: Seq<ReferenceView>,
    pub calls: Seq<CallEdgeView>,
    pub called: Seq<(usize, usize)>,
    pub handled: Set<(usize, usize)>,
}

/// Nothing was found.
pub open spec fn no_uses(handled: Set<(usize, usize)>) -> Uses {
    Uses { references: Seq::empty(), calls: Seq::empty(), called: Seq::empty(), handled }
}

/// Line and column of the start of a tree.
pub open spec fn spot(t: SyntaxTree) -> (usize, usize) {
    (def_pass::line_of_row(t.start_row), t.start_column)
}

/// The text of a line, counted from one. There is no line behind a line feed at the end.
pub open spec fn line_text(source: Seq<char>, line: int) -> Option<Seq<char>> {
    let all = text::lines(source);
    if 1 <= line <= all.len() && (line < all.len() || all[line - 1].len() > 0) {
        Some(all[line - 1])
    } else {
        None
    }
}

/// A reference to a name at a tree.
pub open spec fn reference(env: RefEnv, name: Seq<char>, t: SyntaxTree) -> ReferenceView {
    ReferenceView {
        id: None,
        name,
        kind: SymbolKind::Function,
        location: def_pass::place(env.file, t),
        def_id: None,
        context: if env.with_context {
            line_text(env.source, spot(t).0 as int)
        } else {
            None
        },
    }
}

/// Whether a reference at a tree would repeat a definition or a call that is recorded already.
pub open spec fn taken(env: RefEnv, t: SyntaxTree, handled: Set<(usize, usize)>) -> bool {
    env.defined.contains(spot(t)) || handled.contains(spot(t))
}

/// What an identifier contributes: a reference, where all are kept.
pub open spec fn identifier_uses(env: RefEnv, t: SyntaxTree, handled: Set<(usize, usize)>) -> Uses {
    let name = syntax::text_of(env.source, t);
    let kept = env.mode == ReferenceMode::All && !taken(env, t, handled) && name.len() > 0
        && encode_utf8(name).len() <= MAX_NAME_BYTES;
    Uses {
        references: if kept {
            seq![reference(env, name, t)]
        } else {
            Seq::empty()
        },
        calls: Seq::empty(),
        called: Seq::empty(),
        handled,
    }
}

/// The name that a call calls, where its callee is of a form that has one.
pub open spec fn callee_name(source: Seq<char>, callee: SyntaxTree) -> Option<Seq<char>> {
    match syntax::tag(callee) {
        NodeKind::Identifier | NodeKind::TypeIdentifier | NodeKind::FieldIdentifier => Some(
            syntax::text_of(source, callee),
        ),
        NodeKind::FieldExpression => match syntax::field_child(callee, FieldName::Member) {
            Some(f) => Some(syntax::text_of(source, f)),
            None => Some(Seq::empty()),
        },
        NodeKind::QualifiedIdentifier => Some(text::last_part(syntax::text_of(source, callee))),
        _ => None,
    }
}

/// The node that a qualified name ends in.
pub open spec fn last_name_node(t: SyntaxTree) -> SyntaxTree
    decreases t,
{
    if syntax::tag(t) == NodeKind::QualifiedIdentifier {
        match syntax::field_child(t, FieldName::Name) {
            Some(c) => {
                proof {
                    lemma_name_child(t);
                }
                last_name_node(c)
            },
            None => t,
        }
    } else {
        t
    }
}

/// A child is smaller than its parent.
pub proof fn lemma_name_child(t: SyntaxTree)
    ensures
        syntax::field_child(t, FieldName::Name) matches Some(c) ==> decreases_to!(t => c),
{
    if syntax::field_child(t, FieldName::Name) is Some {
        let i = syntax::field_from(t, FieldName::Name, 0);
        assert(decreases_to!(t => t.children));
        assert(decreases_to!(t.children => t.children[i]));
    }
}

/// The node that a qualified name ends in.
fn find_last_name_node(n: &SyntaxNode) -> (r: &SyntaxNode)
    ensures
        r@ == last_name_node(n@),
    decreases n,
{
    if n.tag() == NodeKind::QualifiedIdentifier {
        if let Some(c) = n.child_by_field_name(FieldName::Name) {
            return find_last_name_node(c);
        }
    }
    n
}

/// The node that holds the name that a call calls: the member behind an object, the last part of
/// a qualified name, else the callee itself.
pub open spec fn called_node(callee: SyntaxTree) -> SyntaxTree {
    if syntax::tag(callee) == NodeKind::FieldExpression {
        match syntax::field_child(callee, FieldName::Member) {
            Some(f) => last_name_node(f),
            None => callee,
        }
    } else {
        last_name_node(callee)
    }
}

/// The node that holds the name that a call calls.
fn find_called_node(callee: &SyntaxNode) -> (r: &SyntaxNode)
    ensures
        r@ == called_node(callee@),
{
    if callee.tag() == NodeKind::FieldExpression {
        match callee.child_by_field_name(FieldName::Member) {
            Some(f) => find_last_name_node(f),
            None => callee,
        }
    } else {
        find_last_name_node(callee)
    }
}

/// What a call contributes: an edge unless the function calls itself, and, where calls are
/// kept, a reference where the called name stands unless there is one already.
pub open spec fn call_uses(
    env: RefEnv,
    t: SyntaxTree,
    function: Option<Seq<char>>,
    handled: Set<(usize, usize)>,
) -> Uses {
    let caller = def_pass::name_or_empty(function);
    let nothing = no_uses(handled);
    match syntax::child_at(t, 0) {
        Some(c) => match callee_name(env.source, c) {
            Some(name) => if name.len() == 0 || name == caller {
                nothing
            } else {
                let edge = CallEdgeView {
                    caller_name: caller,
                    callee_name: name,
                    location: def_pass::place(env.file, c),
                };
                let at = called_node(c);
                if env.mode == ReferenceMode::Off || taken(env, at, handled) {
                    Uses { calls: seq![edge], called: seq![spot(at)], ..nothing }
                } else {
                    Uses {
                        references: seq![reference(env, name, at)],
                        calls: seq![edge],
                        called: seq![spot(at)],
                        handled: handled.insert(spot(at)),
                    }
                }
            },
            None => nothing,
        },
        None => nothing,
    }
}

/// The function around what stands below a node: a function definition is one, by its
/// qualified name.
pub open spec fn function_below(
    source: Seq<char>,
    t: SyntaxTree,
    scopes: Seq<ScopeView>,
    function: Option<Seq<char>>,
) -> Option<Seq<char>> {
    if syntax::tag(t) == NodeKind::FunctionDefinition {
        match names::function_name(source, t) {
            Some((q, n)) => Some(scope::name_in(scope::qualified_parent(scopes, q), n)),
            None => function,
        }
    } else {
        function
    }
}

/// The scopes around what stands below a node.
pub open spec fn scopes_below(
    source: Seq<char>,
    t: SyntaxTree,
    scopes: Seq<ScopeView>,
) -> Seq<ScopeView> {
    match def_pass::opened(source, t) {
        Some((s, _)) => scopes.push(s),
        None => scopes,
    }
}

/// One part and then another.
pub open spec fn uses_then(first: Uses, rest: Uses) -> Uses {
    Uses {
        references: first.references + rest.references,
        calls: first.calls + rest.calls,
        called: first.called + rest.called,
        handled: rest.handled,
    }
}

/// The calls and references in a tree, in reading order, inside the given scopes and function.
pub open spec fn uses_in(
    env: RefEnv,
    t: SyntaxTree,
    scopes: Seq<ScopeView>,
    function: Option<Seq<char>>,
    handled: Set<(usize, usize)>,
) -> Uses
    decreases t, t.children.len() + 1,
{
    if def_pass::is_leaf(t) {
        identifier_uses(env, t, handled)
    } else {
        let own = if syntax::tag(t) == NodeKind::CallExpression {
            call_uses(env, t, function, handled)
        } else {
            no_uses(handled)
        };
        uses_then(
            own,
            uses_from(
                env,
                t,
                0,
                scopes_below(env.source, t, scopes),
                function_below(env.source, t, scopes, function),
                own.handled,
            ),
        )
    }
}

/// The calls and references in the children of a tree, from position `i` on.
pub open spec fn uses_from(
    env: RefEnv,
    t: SyntaxTree,
    i: int,
    scopes: Seq<ScopeView>,
    function: Option<Seq<char>>,
    handled: Set<(usize, usize)>,
) -> Uses
    decreases t, t.children.len() - i,
{
    if i < 0 || i >= t.children.len() {
        no_uses(handled)
    } else {
        let first = uses_in(env, t.children[i], scopes, function, handled);
        uses_then(first, uses_from(env, t, i + 1, scopes, function, first.handled))
    }
}

/// The state of the reference pass over one file.
pub struct RefPass<'a> {
    pub file: &'a str,
    pub source: &'a str,
    pub lines: Vec<String>,
    pub defined: LocationSet,
    pub mode: ReferenceMode,
    pub with_context: bool,
    pub handled: LocationSet,
    pub scopes: Vec<Scope>,
    pub function: Option<String>,
    pub references: Vec<Reference>,
    pub calls: Vec<CallEdge>,
}

impl<'a> RefPass<'a> {
    /// What the pass is told of its file.
    pub open spec fn env(self) -> RefEnv {
        RefEnv {
            file: self.file@,
            source: self.source@,
            defined: self.defined@,
            mode: self.mode,
            with_context: self.with_context,
        }
    }

    /// Whether the lines are those of the text.
    pub open spec fn wf(self) -> bool {
        text::views(self.lines@) == text::lines(self.source@)
    }

    /// Whether two states differ at most in what they have found.
    pub open spec fn same_file(self, other: Self) -> bool {
        self.file == other.file && self.source == other.source && self.lines == other.lines
            && self.defined == other.defined && self.mode == other.mode && self.with_context
            == other.with_context
    }

    /// The text of a line, where contexts are kept.
    pub fn line_context(&self, line: usize) -> (r: Option<String>)
        requires
            self.wf(),
        ensures
            text::view_opt(r) == if self.with_context {
                line_text(self.source@, line as int)
            } else {
                None
            },
    {
        let n = self.lines.len();
        if !self.with_context || line == 0 || line > n {
            return None;
        }
        let s = self.lines[line - 1].clone();
        assert(text::views(self.lines@)[line - 1] == s@);
        if line == n && s.as_str().is_empty() {
            None
        } else {
            Some(s)
        }
    }

    /// Whether a reference at a place would repeat what is recorded already.
    fn is_taken(&self, n: &SyntaxNode) -> (r: bool)
        ensures
            r == taken(self.env(), n@, self.handled@),
    {
        let line = n.start_row.saturating_add(1);
        self.defined.contains(line, n.start_column) || self.handled.contains(line, n.start_column)
    }

    /// A reference to a name at a node.
    fn reference_at(&self, name: String, n: &SyntaxNode) -> (r: Reference)
        requires
            self.wf(),
        ensures
            r@ == reference(self.env(), name@, n@),
    {
        let location = location_of(self.file, n);
        let context = self.line_context(location.line);
        Reference { id: None, name, kind: SymbolKind::Function, location, def_id: None, context }
    }

    /// Records an identifier.
    fn handle_reference(&mut self, n: &SyntaxNode)
        requires
            old(self).wf(),
        ensures
            final(self).same_file(*old(self)),
            final(self).scopes == old(self).scopes,
            final(self).function == old(self).function,
            ({
                let uses = identifier_uses(old(self).env(), n@, old(self).handled@);
                &&& text::views(final(self).references@) == text::views(old(self).references@)
                    + uses.references
                &&& text::views(final(self).calls@) == text::views(old(self).calls@) + uses.calls
                &&& final(self).handled@ == uses.handled
            }),
    {
        proof {
            assert(text::views(self.references@) + Seq::empty() =~= text::views(self.references@));
            assert(text::views(self.calls@) + Seq::empty() =~= text::views(self.calls@));
        }
        if self.mode != ReferenceMode::All || self.is_taken(n) {
            return;
        }
        let name = n.text(self.source);
        if name.as_str().is_empty() || name.as_str().as_bytes().len() > MAX_NAME_BYTES {
            return;
        }
        let r = self.reference_at(name, n);
        proof {
            text::lemma_views_push(self.references@, r);
            assert(text::views(self.references@).push(r@) =~= text::views(self.references@)
                + seq![r@]);
        }
        self.references.push(r);
    }

    /// The name that a call calls.
    fn find_callee_name(&self, callee: &SyntaxNode) -> (r: Option<String>)
        ensures
            text::view_opt(r) == callee_name(self.source@, callee@),
    {
        match callee.tag() {
            NodeKind::Identifier | NodeKind::TypeIdentifier | NodeKind::FieldIdentifier => Some(
                callee.text(self.source),
            ),
            NodeKind::FieldExpression => match callee.child_by_field_name(FieldName::Member) {
                Some(f) => Some(f.text(self.source)),
                None => Some(String::new()),
            },
            NodeKind::QualifiedIdentifier => {
                let whole = callee.text(self.source);
                Some(last_part_of(whole.as_str()))
            },
            _ => None,
        }
    }

    /// Records a call.
    fn handle_call(&mut self, n: &SyntaxNode)
        requires
            old(self).wf(),
        ensures
            final(self).same_file(*old(self)),
            final(self).scopes == old(self).scopes,
            final(self).function == old(self).function,
            ({
                let uses = call_uses(
                    old(self).env(),
                    n@,
                    text::view_opt(old(self).function),
                    old(self).handled@,
                );
                &&& text::views(final(self).references@) == text::views(old(self).references@)
                    + uses.references
                &&& text::views(final(self).calls@) == text::views(old(self).calls@) + uses.calls
                &&& final(self).handled@ == uses.handled
            }),
    {
        proof {
            syntax::lemma_node_view(*n);
            assert(text::views(self.references@) + Seq::empty() =~= text::views(self.references@));
            assert(text::views(self.calls@) + Seq::empty() =~= text::views(self.calls@));
        }
        if n.children.len() == 0 {
            return;
        }
        let callee = &n.children[0];
        assert(n@.children[0] == callee@);
        let name = match self.find_callee_name(callee) {
            Some(name) => name,
            None => {
                return;
            },
        };
        let caller = match &self.function {
            Some(f) => f.clone(),
            None => String::new(),
        };
        if name.as_str().is_empty() || same(name.as_str(), caller.as_str()) {
            return;
        }
        let location = location_of(self.file, callee);
        let edge = CallEdge { caller_name: caller, callee_name: name.clone(), location };
        proof {
            text::lemma_views_push(self.calls@, edge);
            assert(text::views(self.calls@).push(edge@) =~= text::views(self.calls@)
                + seq![edge@]);
        }
        self.calls.push(edge);
        let at = find_called_node(callee);
        if self.mode != ReferenceMode::Off && !self.is_taken(at) {
            let r = self.reference_at(name, at);
            let line = r.location.line;
            let column = r.location.column;
            proof {
                text::lemma_views_push(self.references@, r);
                assert(text::views(self.references@).push(r@) =~= text::views(self.references@)
                    + seq![r@]);
            }
            self.references.push(r);
            self.handled.insert(line, column);
        }
    }

    /// The function around what stands below a node.
    fn find_function_below(&self, n: &SyntaxNode) -> (r: Option<String>)
        ensures
            text::view_opt(r) == function_below(
                self.source@,
                n@,
                text::views(self.scopes@),
                text::view_opt(self.function),
            ),
    {
        if n.tag() == NodeKind::FunctionDefinition {
            if let Some((qualifier, name)) = extract_function_name(n, self.source) {
                let parent = parent_with_qualifier(&self.scopes, &qualifier);
                return Some(name_below_parent(&parent, name.as_str()));
            }
        }
        match &self.function {
            Some(f) => Some(f.clone()),
            None => None,
        }
    }

    /// Walks a node and all below it.
    pub fn walk_node(&mut self, n: &SyntaxNode)
        requires
            old(self).wf(),
        ensures
            final(self).same_file(*old(self)),
            final(self).scopes@ == old(self).scopes@,
            text::view_opt(final(self).function) == text::view_opt(old(self).function),
            ({
                let uses = uses_in(
                    old(self).env(),
                    n@,
                    text::views(old(self).scopes@),
                    text::view_opt(old(self).function),
                    old(self).handled@,
                );
                &&& text::views(final(self).references@) == text::views(old(self).references@)
                    + uses.references
                &&& text::views(final(self).calls@) == text::views(old(self).calls@) + uses.calls
                &&& final(self).handled@ == uses.handled
            }),
        decreases n, n@.children.len() + 1,
    {
        let k = n.tag();
        if is_identifier(k) {
            self.handle_reference(n);
            return;
        }
        let ghost env = self.env();
        let ghost scopes = text::views(self.scopes@);
        let ghost function = text::view_opt(self.function);
        let ghost own = if syntax::tag(n@) == NodeKind::CallExpression {
            call_uses(env, n@, function, self.handled@)
        } else {
            no_uses(self.handled@)
        };
        let ghost inner = uses_from(
            env,
            n@,
            0,
            scopes_below(env.source, n@, scopes),
            function_below(env.source, n@, scopes, function),
            own.handled,
        );
        if k == NodeKind::CallExpression {
            self.handle_call(n);
        } else {
            proof {
                assert(text::views(self.references@) + own.references =~= text::views(
                    self.references@,
                ));
                assert(text::views(self.calls@) + own.calls =~= text::views(self.calls@));
            }
        }
        let below = self.find_function_below(n);
        let around = match &self.function {
            Some(f) => Some(f.clone()),
            None => None,
        };
        self.function = below;
        match scope_opened(n, self.source) {
            Some((s, _v)) => {
                proof {
                    text::lemma_views_push(self.scopes@, s);
                }
                self.scopes.push(s);
                self.walk_children(n);
                self.scopes.pop();
                assert(self.scopes@ =~= old(self).scopes@);
            },
            None => {
                self.walk_children(n);
            },
        }
        self.function = around;
        proof {
            assert(text::views(old(self).references@) + own.references + inner.references
                =~= text::views(old(self).references@) + (own.references + inner.references));
            assert(text::views(old(self).calls@) + own.calls + inner.calls =~= text::views(
                old(self).calls@,
            ) + (own.calls + inner.calls));
        }
    }

    /// Walks the children of a node.
    fn walk_children(&mut self, n: &SyntaxNode)
        requires
            old(self).wf(),
        ensures
            final(self).same_file(*old(self)),
            final(self).scopes@ == old(self).scopes@,
            text::view_opt(final(self).function) == text::view_opt(old(self).function),
            ({
                let uses = uses_from(
                    old(self).env(),
                    n@,
                    0,
                    text::views(old(self).scopes@),
                    text::view_opt(old(self).function),
                    old(self).handled@,
                );
                &&& text::views(final(self).references@) == text::views(old(self).references@)
                    + uses.references
                &&& text::views(final(self).calls@) == text::views(old(self).calls@) + uses.calls
                &&& final(self).handled@ == uses.handled
            }),
        decreases n, n@.children.len(),
    {
        let ghost env = self.env();
        let ghost scopes = text::views(self.scopes@);
        let ghost function = text::view_opt(self.function);
        let ghost references = text::views(self.references@);
        let ghost calls = text::views(self.calls@);
        let ghost all = uses_from(env, n@, 0, scopes, function, self.handled@);
        let mut i: usize = 0;
        proof {
            syntax::lemma_node_view(*n);
        }
        while i < n.children.len()
            invariant
                n@.children.len() == n.children@.len(),
                forall|j: int|
                    0 <= j < n.children@.len() ==> #[trigger] n@.children[j] == n.children@[j]@
                        && decreases_to!(n => n.children@[j]),
                i <= n.children@.len(),
                self.same_file(*old(self)),
                self.wf(),
                self.scopes@ == old(self).scopes@,
                scopes == text::views(self.scopes@),
                text::view_opt(old(self).function) == function,
                text::view_opt(self.function) == function,
                env == self.env(),
                ({
                    let rest = uses_from(env, n@, i as int, scopes, function, self.handled@);
                    &&& rest.handled == all.handled
                    &&& text::views(self.references@) + rest.references == references
                        + all.references
                    &&& text::views(self.calls@) + rest.calls == calls + all.calls
                }),
            decreases n.children@.len() - i,
        {
            let c = &n.children[i];
            assert(n@.children[i as int] == c@);
            let ghost first = uses_in(env, c@, scopes, function, self.handled@);
            let ghost shown = text::views(self.references@);
            let ghost edges = text::views(self.calls@);
            self.walk_node(c);
            proof {
                let next = uses_from(env, n@, i + 1, scopes, function, first.handled);
                assert(shown + first.references + next.references =~= shown + (first.references
                    + next.references));
                assert(edges + first.calls + next.calls =~= edges + (first.calls + next.calls));
            }
            i = i + 1;
        }
        proof {
            let rest = uses_from(env, n@, i as int, scopes, function, self.handled@);
            assert(rest.references.len() == 0 && rest.calls.len() == 0);
            assert(text::views(self.references@) =~= references + all.references);
            assert(text::views(self.calls@) =~= calls + all.calls);
        }
    }
}

} // verus!
