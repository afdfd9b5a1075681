//! Syntax trees of C and C++ sources, read from tree-sitter as plain values.
use crate::text::same;
use crate::text;
use vstd::prelude::*;
use vstd::string::*;
use vstd::utf8::*;

verus! {

/// The fields of a node under which the indexer looks for a child.
#[derive(Debug, Clone, Copy, PartialEq, Eq, Structural)]
pub enum FieldName {
    /// `name`
    Name,
    /// `declarator`
    Declarator,
    /// `field`
    Member,
}

/// The fields under which a node finds one of its children.
#[derive(Debug, Clone, Copy, PartialEq, Eq, Structural)]
pub struct Roles {
    pub name: bool,
    pub declarator: bool,
    pub member: bool,
}

impl Roles {
    /// A child that is found under no field.
    pub open spec fn nothing() -> Roles {
        Roles { name: false, declarator: false, member: false }
    }

    /// Whether the child is found under a field.
    pub open spec fn has(self, field: FieldName) -> bool {
        match field {
            FieldName::Name => self.name,
            FieldName::Declarator => self.declarator,
            FieldName::Member => self.member,
        }
    }

    /// A child that is found under no field.
    pub fn none() -> (r: Roles)
        ensures
            r == Roles::nothing(),
    {
        Roles { name: false, declarator: false, member: false }
    }

    /// Whether the child is found under a field.
    pub fn contains(&self, field: FieldName) -> (r: bool)
        ensures
            r == self.has(field),
    {
        match field {
            FieldName::Name => self.name,
            FieldName::Declarator => self.declarator,
            FieldName::Member => self.member,
        }
    }
}

/// A syntax tree. Byte offsets, rows and columns count from zero; `roles` are the fields under
/// which the parent finds the tree.
pub struct SyntaxTree {
    pub kind: Seq<char>,
    pub roles: Roles,
    pub start_byte: usize,
    pub end_byte: usize,
    pub start_row: usize,
    pub start_column: usize,
    pub end_row: usize,
    pub end_column: usize,
    pub children: Seq<SyntaxTree>,
}

/// A syntax tree held in memory.
pub struct SyntaxNode {
    pub kind: String,
    pub roles: Roles,
    pub start_byte: usize,
    pub end_byte: usize,
    pub start_row: usize,
    pub start_column: usize,
    pub end_row: usize,
    pub end_column: usize,
    pub children: Vec<SyntaxNode>,
}

impl SyntaxNode {
    /// The tree that the node holds.
    pub open spec fn tree(self) -> SyntaxTree
        decreases self,
    {
        SyntaxTree {
            kind: self.kind@,
            roles: self.roles,
            start_byte: self.start_byte,
            end_byte: self.end_byte,
            start_row: self.start_row,
            start_column: self.start_column,
            end_row: self.end_row,
            end_column: self.end_column,
            children: Seq::new(
                self.children@.len(),
                |i: int|
                    if 0 <= i < self.children@.len() {
                        self.children@[i].tree()
                    } else {
                        arbitrary()
                    },
            ),
        }
    }
}

impl View for SyntaxNode {
    type V = SyntaxTree;

    open spec fn view(&self) -> SyntaxTree {
        self.tree()
    }
}

/// The tree of a node holds the trees of its children.
pub proof fn lemma_node_view(n: SyntaxNode)
    ensures
        n@.kind == n.kind@,
        n@.roles == n.roles,
        n@.children.len() == n.children@.len(),
        forall|i: int|
            0 <= i < n.children@.len() ==> #[trigger] n@.children[i] == n.children@[i]@
                && decreases_to!(n => n.children@[i]),
{
    assert forall|i: int| 0 <= i < n.children@.len() implies #[trigger] n@.children[i]
        == n.children@[i]@ && decreases_to!(n => n.children@[i]) by {
        assert(decreases_to!(n => n.children));
        assert(decreases_to!(n.children => n.children@));
        assert(decreases_to!(n.children@ => n.children@[i]));
    }
}

/// The kinds of node that the rules of the indexer tell apart.
#[derive(Debug, Clone, Copy, PartialEq, Eq, Structural)]
pub enum NodeKind {
    NamespaceDefinition,
    ClassSpecifier,
    StructSpecifier,
    UnionSpecifier,
    EnumSpecifier,
    FunctionDefinition,
    Declaration,
    FieldDeclaration,
    PreprocDef,
    PreprocFunctionDef,
    TypeDefinition,
    Enumerator,
    BaseClassClause,
    AccessSpecifier,
    Identifier,
    TypeIdentifier,
    FieldIdentifier,
    NamespaceIdentifier,
    CallExpression,
    FunctionDeclarator,
    ArrayDeclarator,
    PointerDeclarator,
    ReferenceDeclarator,
    InitDeclarator,
    ParenthesizedDeclarator,
    EqualsSign,
    QualifiedIdentifier,
    DestructorName,
    FieldExpression,
    Virtual,
    TemplateType,
    ParameterizedType,
    ScopedTypeIdentifier,
    QualifiedTypeIdentifier,
    NestedNamespaceSpecifier,
    Other,
}

/// The kind that the grammar's name for a node stands for.
#[verifier::opaque]
pub open spec fn node_kind(s: Seq<char>) -> NodeKind {
    if s == "namespace_definition"@ {
        NodeKind::NamespaceDefinition
    } else if s == "class_specifier"@ {
        NodeKind::ClassSpecifier
    } else if s == "struct_specifier"@ {
        NodeKind::StructSpecifier
    } else if s == "union_specifier"@ {
        NodeKind::UnionSpecifier
    } else if s == "enum_specifier"@ {
        NodeKind::EnumSpecifier
    } else if s == "function_definition"@ {
        NodeKind::FunctionDefinition
    } else if s == "declaration"@ {
        NodeKind::Declaration
    } else if s == "field_declaration"@ {
        NodeKind::FieldDeclaration
    } else if s == "preproc_def"@ {
        NodeKind::PreprocDef
    } else if s == "preproc_function_def"@ {
        NodeKind::PreprocFunctionDef
    } else if s == "type_definition"@ {
        NodeKind::TypeDefinition
    } else if s == "enumerator"@ {
        NodeKind::Enumerator
    } else if s == "base_class_clause"@ {
        NodeKind::BaseClassClause
    } else if s == "access_specifier"@ {
        NodeKind::AccessSpecifier
    } else if s == "identifier"@ {
        NodeKind::Identifier
    } else if s == "type_identifier"@ {
        NodeKind::TypeIdentifier
    } else if s == "field_identifier"@ {
        NodeKind::FieldIdentifier
    } else if s == "namespace_identifier"@ {
        NodeKind::NamespaceIdentifier
    } else if s == "call_expression"@ {
        NodeKind::CallExpression
    } else if s == "function_declarator"@ {
        NodeKind::FunctionDeclarator
    } else if s == "array_declarator"@ {
        NodeKind::ArrayDeclarator
    } else if s == "pointer_declarator"@ {
        NodeKind::PointerDeclarator
    } else if s == "reference_declarator"@ {
        NodeKind::ReferenceDeclarator
    } else if s == "init_declarator"@ {
        NodeKind::InitDeclarator
    } else if s == "parenthesized_declarator"@ {
        NodeKind::ParenthesizedDeclarator
    } else if s == "="@ {
        NodeKind::EqualsSign
    } else if s == "qualified_identifier"@ {
        NodeKind::QualifiedIdentifier
    } else if s == "destructor_name"@ {
        NodeKind::DestructorName
    } else if s == "field_expression"@ {
        NodeKind::FieldExpression
    } else if s == "virtual"@ {
        NodeKind::Virtual
    } else if s == "template_type"@ {
        NodeKind::TemplateType
    } else if s == "parameterized_type"@ {
        NodeKind::ParameterizedType
    } else if s == "scoped_type_identifier"@ {
        NodeKind::ScopedTypeIdentifier
    } else if s == "qualified_type_identifier"@ {
        NodeKind::QualifiedTypeIdentifier
    } else if s == "nested_namespace_specifier"@ {
        NodeKind::NestedNamespaceSpecifier
    } else {
        NodeKind::Other
    }
}

/// The kind that the grammar's name for a node stands for.
pub fn kind_of(s: &str) -> (r: NodeKind)
    ensures
        r == node_kind(s@),
{
    reveal(node_kind);
    if same(s, "namespace_definition") {
        NodeKind::NamespaceDefinition
    } else if same(s, "class_specifier") {
        NodeKind::ClassSpecifier
    } else if same(s, "struct_specifier") {
        NodeKind::StructSpecifier
    } else if same(s, "union_specifier") {
        NodeKind::UnionSpecifier
    } else if same(s, "enum_specifier") {
        NodeKind::EnumSpecifier
    } else if same(s, "function_definition") {
        NodeKind::FunctionDefinition
    } else if same(s, "declaration") {
        NodeKind::Declaration
    } else if same(s, "field_declaration") {
        NodeKind::FieldDeclaration
    } else if same(s, "preproc_def") {
        NodeKind::PreprocDef
    } else if same(s, "preproc_function_def") {
        NodeKind::PreprocFunctionDef
    } else if same(s, "type_definition") {
        NodeKind::TypeDefinition
    } else if same(s, "enumerator") {
        NodeKind::Enumerator
    } else if same(s, "base_class_clause") {
        NodeKind::BaseClassClause
    } else if same(s, "access_specifier") {
        NodeKind::AccessSpecifier
    } else if same(s, "identifier") {
        NodeKind::Identifier
    } else if same(s, "type_identifier") {
        NodeKind::TypeIdentifier
    } else if same(s, "field_identifier") {
        NodeKind::FieldIdentifier
    } else if same(s, "namespace_identifier") {
        NodeKind::NamespaceIdentifier
    } else if same(s, "call_expression") {
        NodeKind::CallExpression
    } else if same(s, "function_declarator") {
        NodeKind::FunctionDeclarator
    } else if same(s, "array_declarator") {
        NodeKind::ArrayDeclarator
    } else if same(s, "pointer_declarator") {
        NodeKind::PointerDeclarator
    } else if same(s, "reference_declarator") {
        NodeKind::ReferenceDeclarator
    } else if same(s, "init_declarator") {
        NodeKind::InitDeclarator
    } else if same(s, "parenthesized_declarator") {
        NodeKind::ParenthesizedDeclarator
    } else if same(s, "=") {
        NodeKind::EqualsSign
    } else if same(s, "qualified_identifier") {
        NodeKind::QualifiedIdentifier
    } else if same(s, "destructor_name") {
        NodeKind::DestructorName
    } else if same(s, "field_expression") {
        NodeKind::FieldExpression
    } else if same(s, "virtual") {
        NodeKind::Virtual
    } else if same(s, "template_type") {
        NodeKind::TemplateType
    } else if same(s, "parameterized_type") {
        NodeKind::ParameterizedType
    } else if same(s, "scoped_type_identifier") {
        NodeKind::ScopedTypeIdentifier
    } else if same(s, "qualified_type_identifier") {
        NodeKind::QualifiedTypeIdentifier
    } else if same(s, "nested_namespace_specifier") {
        NodeKind::NestedNamespaceSpecifier
    } else {
        NodeKind::Other
    }
}

/// The grammar's name for a kind of node.
pub open spec fn grammar_name(k: NodeKind) -> Seq<char> {
    match k {
        NodeKind::NamespaceDefinition => "namespace_definition"@,
        NodeKind::ClassSpecifier => "class_specifier"@,
        NodeKind::StructSpecifier => "struct_specifier"@,
        NodeKind::UnionSpecifier => "union_specifier"@,
        NodeKind::EnumSpecifier => "enum_specifier"@,
        NodeKind::FunctionDefinition => "function_definition"@,
        NodeKind::Declaration => "declaration"@,
        NodeKind::FieldDeclaration => "field_declaration"@,
        NodeKind::PreprocDef => "preproc_def"@,
        NodeKind::PreprocFunctionDef => "preproc_function_def"@,
        NodeKind::TypeDefinition => "type_definition"@,
        NodeKind::Enumerator => "enumerator"@,
        NodeKind::BaseClassClause => "base_class_clause"@,
        NodeKind::AccessSpecifier => "access_specifier"@,
        NodeKind::Identifier => "identifier"@,
        NodeKind::TypeIdentifier => "type_identifier"@,
        NodeKind::FieldIdentifier => "field_identifier"@,
        NodeKind::NamespaceIdentifier => "namespace_identifier"@,
        NodeKind::CallExpression => "call_expression"@,
        NodeKind::FunctionDeclarator => "function_declarator"@,
        NodeKind::ArrayDeclarator => "array_declarator"@,
        NodeKind::PointerDeclarator => "pointer_declarator"@,
        NodeKind::ReferenceDeclarator => "reference_declarator"@,
        NodeKind::InitDeclarator => "init_declarator"@,
        NodeKind::ParenthesizedDeclarator => "parenthesized_declarator"@,
        NodeKind::EqualsSign => "="@,
        NodeKind::QualifiedIdentifier => "qualified_identifier"@,
        NodeKind::DestructorName => "destructor_name"@,
        NodeKind::FieldExpression => "field_expression"@,
        NodeKind::Virtual => "virtual"@,
        NodeKind::TemplateType => "template_type"@,
        NodeKind::ParameterizedType => "parameterized_type"@,
        NodeKind::ScopedTypeIdentifier => "scoped_type_identifier"@,
        NodeKind::QualifiedTypeIdentifier => "qualified_type_identifier"@,
        NodeKind::NestedNamespaceSpecifier => "nested_namespace_specifier"@,
        NodeKind::Other => Seq::empty(),
    }
}

/// The names that the grammar has for kinds of node are apart.
proof fn lemma_grammar_names(a: NodeKind, b: NodeKind)
    requires
        grammar_name(a) == grammar_name(b),
        a != NodeKind::Other,
        b != NodeKind::Other,
    ensures
        a == b,
{
    reveal_strlit("namespace_definition");
    reveal_strlit("class_specifier");
    reveal_strlit("struct_specifier");
    reveal_strlit("union_specifier");
    reveal_strlit("enum_specifier");
    reveal_strlit("function_definition");
    reveal_strlit("declaration");
    reveal_strlit("field_declaration");
    reveal_strlit("preproc_def");
    reveal_strlit("preproc_function_def");
    reveal_strlit("type_definition");
    reveal_strlit("enumerator");
    reveal_strlit("base_class_clause");
    reveal_strlit("access_specifier");
    reveal_strlit("identifier");
    reveal_strlit("type_identifier");
    reveal_strlit("field_identifier");
    reveal_strlit("namespace_identifier");
    reveal_strlit("call_expression");
    reveal_strlit("function_declarator");
    reveal_strlit("array_declarator");
    reveal_strlit("pointer_declarator");
    reveal_strlit("reference_declarator");
    reveal_strlit("init_declarator");
    reveal_strlit("parenthesized_declarator");
    reveal_strlit("=");
    reveal_strlit("qualified_identifier");
    reveal_strlit("destructor_name");
    reveal_strlit("field_expression");
    reveal_strlit("virtual");
    reveal_strlit("template_type");
    reveal_strlit("parameterized_type");
    reveal_strlit("scoped_type_identifier");
    reveal_strlit("qualified_type_identifier");
    reveal_strlit("nested_namespace_specifier");
    assert("namespace_definition"@.len() == 20 && "namespace_definition"@[0] == 'n' && "namespace_definition"@[10] == 'd');
    assert("class_specifier"@.len() == 15 && "class_specifier"@[0] == 'c' && "class_specifier"@[1] == 'l');
    assert("struct_specifier"@.len() == 16 && "struct_specifier"@[0] == 's');
    assert("union_specifier"@.len() == 15 && "union_specifier"@[0] == 'u');
    assert("enum_specifier"@.len() == 14);
    assert("function_definition"@.len() == 19 && "function_definition"@[11] == 'f');
    assert("declaration"@.len() == 11 && "declaration"@[0] == 'd');
    assert("field_declaration"@.len() == 17 && "field_declaration"@[0] == 'f');
    assert("preproc_def"@.len() == 11 && "preproc_def"@[0] == 'p');
    assert("preproc_function_def"@.len() == 20 && "preproc_function_def"@[0] == 'p');
    assert("type_definition"@.len() == 15 && "type_definition"@[0] == 't' && "type_definition"@[5] == 'd');
    assert("enumerator"@.len() == 10 && "enumerator"@[0] == 'e');
    assert("base_class_clause"@.len() == 17 && "base_class_clause"@[0] == 'b');
    assert("access_specifier"@.len() == 16 && "access_specifier"@[0] == 'a' && "access_specifier"@[1] == 'c');
    assert("identifier"@.len() == 10 && "identifier"@[0] == 'i');
    assert("type_identifier"@.len() == 15 && "type_identifier"@[0] == 't' && "type_identifier"@[5] == 'i');
    assert("field_identifier"@.len() == 16 && "field_identifier"@[0] == 'f' && "field_identifier"@[6] == 'i');
    assert("namespace_identifier"@.len() == 20 && "namespace_identifier"@[0] == 'n' && "namespace_identifier"@[10] == 'i');
    assert("call_expression"@.len() == 15 && "call_expression"@[0] == 'c' && "call_expression"@[1] == 'a');
    assert("function_declarator"@.len() == 19 && "function_declarator"@[11] == 'c');
    assert("array_declarator"@.len() == 16 && "array_declarator"@[0] == 'a' && "array_declarator"@[1] == 'r');
    assert("pointer_declarator"@.len() == 18 && "pointer_declarator"@[1] == 'o');
    assert("reference_declarator"@.len() == 20 && "reference_declarator"@[0] == 'r');
    assert("init_declarator"@.len() == 15 && "init_declarator"@[0] == 'i');
    assert("parenthesized_declarator"@.len() == 24);
    assert("="@.len() == 1);
    assert("qualified_identifier"@.len() == 20 && "qualified_identifier"@[0] == 'q');
    assert("destructor_name"@.len() == 15 && "destructor_name"@[0] == 'd');
    assert("field_expression"@.len() == 16 && "field_expression"@[0] == 'f' && "field_expression"@[6] == 'e');
    assert("virtual"@.len() == 7);
    assert("template_type"@.len() == 13);
    assert("parameterized_type"@.len() == 18 && "parameterized_type"@[1] == 'a');
    assert("scoped_type_identifier"@.len() == 22);
    assert("qualified_type_identifier"@.len() == 25);
    assert("nested_namespace_specifier"@.len() == 26);
}

/// A kind of node is told by the grammar's name for it alone, and any other name is of no kind that
/// the indexer tells apart.
pub proof fn law_kinds_go_by_the_names_of_the_grammar(s: Seq<char>, k: NodeKind)
    requires
        k != NodeKind::Other,
    ensures
        node_kind(s) == k <==> s == grammar_name(k),
{
    reveal(node_kind);
    let m = node_kind(s);
    if m != NodeKind::Other {
        assert(s == grammar_name(m));
    }
    if s == grammar_name(k) {
        assert(m != NodeKind::Other);
        lemma_grammar_names(m, k);
    }
}

/// The kind of a tree.
pub open spec fn tag(t: SyntaxTree) -> NodeKind {
    node_kind(t.kind)
}

impl SyntaxNode {
    /// The kind of the node.
    pub fn tag(&self) -> (r: NodeKind)
        ensures
            r == tag(self@),
    {
        kind_of(self.kind.as_str())
    }
}

/// The text between two byte offsets, where both lie between characters of the source.
pub open spec fn slice_of(source: Seq<char>, start: int, end: int) -> Option<Seq<char>> {
    let bytes = encode_utf8(source);
    if 0 <= start <= end <= bytes.len() && is_char_boundary(bytes, start) && is_char_boundary(
        bytes,
        end,
    ) {
        Some(decode_utf8(bytes.subrange(start, end)))
    } else {
        None
    }
}

/// The text between two byte offsets, where both lie between characters of the source.
pub fn slice<'a>(source: &'a str, start: usize, end: usize) -> (r: Option<&'a str>)
    ensures
        match r {
            Some(t) => slice_of(source@, start as int, end as int) == Some(t@),
            None => slice_of(source@, start as int, end as int) is None,
        },
{
    let ghost bytes = source.spec_bytes();
    proof {
        encode_utf8_valid_utf8(source@);
    }
    let n = source.as_bytes().len();
    if start > end || end > n || !source.is_char_boundary(start) || !source.is_char_boundary(
        end,
    ) {
        return None;
    }
    let (head, _rest) = source.split_at(end);
    proof {
        encode_utf8_valid_utf8(head@);
        if start < end {
            is_char_boundary_iff_not_is_continuation_byte(bytes, start as int);
            assert(bytes[start as int] == head.spec_bytes()[start as int]);
            is_char_boundary_iff_not_is_continuation_byte(head.spec_bytes(), start as int);
        } else {
            is_char_boundary_start_end_of_seq(head.spec_bytes());
        }
    }
    let (_before, middle) = head.split_at(start);
    proof {
        assert(middle.spec_bytes() =~= bytes.subrange(start as int, end as int));
        encode_utf8_decode_utf8(middle@);
    }
    Some(middle)
}

/// The source text of a tree.
pub open spec fn text_of(source: Seq<char>, t: SyntaxTree) -> Seq<char> {
    match slice_of(source, t.start_byte as int, t.end_byte as int) {
        Some(s) => s,
        None => Seq::empty(),
    }
}

impl SyntaxNode {
    /// The source text of the node.
    pub fn text(&self, source: &str) -> (r: String)
        ensures
            r@ == text_of(source@, self@),
    {
        match slice(source, self.start_byte, self.end_byte) {
            Some(s) => s.to_owned(),
            None => String::new(),
        }
    }
}

/// The child at a position, if there is one.
pub open spec fn child_at(t: SyntaxTree, i: int) -> Option<SyntaxTree> {
    if 0 <= i < t.children.len() {
        Some(t.children[i])
    } else {
        None
    }
}

/// The position of the child, from position `i` on, that is found under a field.
pub open spec fn field_from(t: SyntaxTree, field: FieldName, i: int) -> int
    decreases t.children.len() - i,
{
    if i >= t.children.len() || t.children[i].roles.has(field) {
        i
    } else {
        field_from(t, field, i + 1)
    }
}

/// The child that is found under a field.
pub open spec fn field_child(t: SyntaxTree, field: FieldName) -> Option<SyntaxTree> {
    child_at(t, field_from(t, field, 0))
}

/// The position of the first child of a kind, from position `i` on.
pub open spec fn kind_from(t: SyntaxTree, kind: NodeKind, i: int) -> int
    decreases t.children.len() - i,
{
    if i >= t.children.len() || tag(t.children[i]) == kind {
        i
    } else {
        kind_from(t, kind, i + 1)
    }
}

/// The first child of a kind.
pub open spec fn kind_child(t: SyntaxTree, kind: NodeKind) -> Option<SyntaxTree> {
    child_at(t, kind_from(t, kind, 0))
}

impl SyntaxNode {
    /// The child that is found under a field.
    pub fn child_by_field_name(&self, field: FieldName) -> (r: Option<&SyntaxNode>)
        ensures
            match r {
                Some(c) => field_child(self@, field) == Some(c@) && decreases_to!(self => c),
                None => field_child(self@, field) is None,
            },
    {
        let mut i: usize = 0;
        proof {
            lemma_node_view(*self);
        }
        while i < self.children.len()
            invariant
                self@.children.len() == self.children@.len(),
                forall|j: int|
                    0 <= j < self.children@.len() ==> #[trigger] self@.children[j]
                        == self.children@[j]@ && decreases_to!(self => self.children@[j]),
                i <= self.children@.len(),
                field_from(self@, field, 0) == field_from(self@, field, i as int),
            decreases self.children@.len() - i,
        {
            let c = &self.children[i];
            assert(self@.children[i as int] == c@);
            if c.roles.contains(field) {
                return Some(c);
            }
            i = i + 1;
        }
        None
    }

    /// The first child of a kind.
    pub fn child_of_kind(&self, kind: NodeKind) -> (r: Option<&SyntaxNode>)
        ensures
            match r {
                Some(c) => kind_child(self@, kind) == Some(c@) && decreases_to!(self => c),
                None => kind_child(self@, kind) is None,
            },
    {
        let mut i: usize = 0;
        proof {
            lemma_node_view(*self);
        }
        while i < self.children.len()
            invariant
                self@.children.len() == self.children@.len(),
                forall|j: int|
                    0 <= j < self.children@.len() ==> #[trigger] self@.children[j]
                        == self.children@[j]@ && decreases_to!(self => self.children@[j]),
                i <= self.children@.len(),
                kind_from(self@, kind, 0) == kind_from(self@, kind, i as int),
            decreases self.children@.len() - i,
        {
            let c = &self.children[i];
            assert(self@.children[i as int] == c@);
            if c.tag() == kind {
                return Some(c);
            }
            i = i + 1;
        }
        None
    }
}

/// A syntax tree of the `tree_sitter` crate.
#[verifier::external_type_specification]
#[verifier::external_body]
pub struct ExTree(tree_sitter::Tree);

/// A node of a syntax tree of the `tree_sitter` crate.
#[verifier::external_type_specification]
#[verifier::external_body]
pub struct ExNode<'tree>(tree_sitter::Node<'tree>);

/// What parsing a text under the C grammar gives: the tree, nothing, or why the grammar
/// cannot be used.
pub uninterp spec fn c_parse(source: Seq<char>) -> Result<Option<SyntaxTree>, Seq<char>>;

/// What parsing a text under the C++ grammar gives: the tree, nothing, or why the grammar
/// cannot be used.
pub uninterp spec fn cpp_parse(source: Seq<char>) -> Result<Option<SyntaxTree>, Seq<char>>;

/// The nodes that a tree of the `tree_sitter` crate holds.
pub uninterp spec fn tree_contents(tree: tree_sitter::Tree) -> SyntaxTree;

/// The nodes that a node of the `tree_sitter` crate holds.
pub uninterp spec fn node_contents(node: tree_sitter::Node<'_>) -> SyntaxTree;

/// Whether a parse result of the `tree_sitter` crate is the one that a name stands for.
pub open spec fn parse_result(
    r: Result<Option<tree_sitter::Tree>, String>,
    named: Result<Option<SyntaxTree>, Seq<char>>,
) -> bool {
    match (r, named) {
        (Ok(Some(tree)), Ok(Some(t))) => tree_contents(tree) == t,
        (Ok(None), Ok(None)) => true,
        (Err(e), Err(m)) => e@ == m,
        _ => false,
    }
}

/// `tree_sitter::Parser::parse` by a fresh parser whose language is `tree_sitter_c::LANGUAGE`.
/// The result, a message of `set_language` included, depends on the text alone.
#[verifier::external_body]
fn parse_c(source: &str) -> (r: Result<Option<tree_sitter::Tree>, String>)
    ensures
        parse_result(r, c_parse(source@)),
{
    let mut parser = tree_sitter::Parser::new();
    parser.set_language(&tree_sitter_c::LANGUAGE.into()).map_err(|e| e.to_string())?;
    Ok(parser.parse(source, None))
}

/// `tree_sitter::Parser::parse` by a fresh parser whose language is
/// `tree_sitter_cpp::LANGUAGE`. The result, a message of `set_language` included, depends on
/// the text alone.
#[verifier::external_body]
fn parse_cpp(source: &str) -> (r: Result<Option<tree_sitter::Tree>, String>)
    ensures
        parse_result(r, cpp_parse(source@)),
{
    let mut parser = tree_sitter::Parser::new();
    parser.set_language(&tree_sitter_cpp::LANGUAGE.into()).map_err(|e| e.to_string())?;
    Ok(parser.parse(source, None))
}

/// `tree_sitter::Tree::root_node`: the node that holds all that the tree holds.
#[verifier::external_body]
fn root_node<'t>(tree: &'t tree_sitter::Tree) -> (r: tree_sitter::Node<'t>)
    ensures
        node_contents(r) == tree_contents(*tree),
{
    tree.root_node()
}

/// `tree_sitter::Node::kind`: the grammar's name for the node.
#[verifier::external_body]
fn raw_kind(node: &tree_sitter::Node<'_>) -> (r: String)
    ensures
        r@ == node_contents(*node).kind,
{
    node.kind().to_string()
}

/// `tree_sitter::Node::range`: where the node starts and ends, in bytes and in rows and
/// columns, in this order: both bytes, then row and column of the start, then of the end.
#[verifier::external_body]
fn raw_range(node: &tree_sitter::Node<'_>) -> (r: (usize, usize, usize, usize, usize, usize))
    ensures
        r.0 == node_contents(*node).start_byte,
        r.1 == node_contents(*node).end_byte,
        r.2 == node_contents(*node).start_row,
        r.3 == node_contents(*node).start_column,
        r.4 == node_contents(*node).end_row,
        r.5 == node_contents(*node).end_column,
{
    let r = node.range();
    let (s, e) = (r.start_point, r.end_point);
    (r.start_byte, r.end_byte, s.row, s.column, e.row, e.column)
}

/// `tree_sitter::Node::child`: the child at a position, and nothing behind the last one.
#[verifier::external_body]
fn raw_child<'t>(node: &tree_sitter::Node<'t>, i: u32) -> (r: Option<tree_sitter::Node<'t>>)
    ensures
        r is Some <==> i < node_contents(*node).children.len(),
        r is Some ==> node_contents(r->0) == node_contents(*node).children[i as int],
{
    node.child(i)
}

/// `tree_sitter::Node::child_by_field_name`: whether the child that it gives for a field is the
/// one at a position.
#[verifier::external_body]
fn raw_is_field(node: &tree_sitter::Node<'_>, name: &str, i: u32) -> (r: bool)
    requires
        i < node_contents(*node).children.len(),
    ensures
        name@ == "name"@ ==> r == node_contents(*node).children[i as int].roles.name,
        name@ == "declarator"@ ==> r == node_contents(*node).children[i as int].roles.declarator,
        name@ == "field"@ ==> r == node_contents(*node).children[i as int].roles.member,
{
    node.child_by_field_name(name).is_some_and(|c| Some(c) == node.child(i))
}

/// The fields under which a node finds the child at a position.
fn read_roles(node: &tree_sitter::Node<'_>, i: u32) -> (r: Roles)
    requires
        i < node_contents(*node).children.len(),
    ensures
        r == node_contents(*node).children[i as int].roles,
{
    Roles {
        name: raw_is_field(node, "name", i),
        declarator: raw_is_field(node, "declarator", i),
        member: raw_is_field(node, "field", i),
    }
}

/// `tree_sitter::Node::child_count`: the number of children, which the crate counts in 32
/// bits.
#[verifier::external_body]
fn raw_child_count(node: &tree_sitter::Node<'_>) -> (r: u32)
    ensures
        r == node_contents(*node).children.len(),
{
    node.child_count() as u32
}

/// The node with all below it; `roles` are the fields under which its parent finds it.
fn read_node(node: &tree_sitter::Node<'_>, roles: Roles) -> (r: SyntaxNode)
    ensures
        r@ == (SyntaxTree { roles, ..node_contents(*node) }),
    decreases node_contents(*node),
{
    let ghost t = node_contents(*node);
    let kind = raw_kind(node);
    let (start_byte, end_byte, start_row, start_column, end_row, end_column) = raw_range(node);
    let n: u32 = raw_child_count(node);
    let mut children: Vec<SyntaxNode> = Vec::new();
    let mut i: u32 = 0;
    while i < n
        invariant
            t == node_contents(*node),
            n == t.children.len(),
            i <= n,
            children@.len() == i,
            forall|j: int| 0 <= j < i ==> (#[trigger] children@[j])@ == t.children[j],
        decreases n - i,
    {
        if let Some(c) = raw_child(node, i) {
            let c_roles = read_roles(node, i);
            assert(decreases_to!(t => t.children[i as int]));
            children.push(read_node(&c, c_roles));
        }
        i = i + 1;
    }
    let r = SyntaxNode {
        kind,
        roles,
        start_byte,
        end_byte,
        start_row,
        start_column,
        end_row,
        end_column,
        children,
    };
    assert(r@.children =~= t.children);
    r
}

/// What parsing a text gives, with a root that is found under no field.
pub open spec fn syntax_of(source: Seq<char>, cpp: bool) -> Result<
    Option<SyntaxTree>,
    Seq<char>,
> {
    let named = if cpp {
        cpp_parse(source)
    } else {
        c_parse(source)
    };
    match named {
        Ok(Some(t)) => Ok(Some(SyntaxTree { roles: Roles::nothing(), ..t })),
        other => other,
    }
}

/// The syntax tree of a text under the C++ grammar or the C grammar.
pub fn parse_source(source: &str, cpp: bool) -> (r: Result<Option<SyntaxNode>, String>)
    ensures
        match (r, syntax_of(source@, cpp)) {
            (Ok(Some(n)), Ok(Some(t))) => n@ == t,
            (Ok(None), Ok(None)) => true,
            (Err(e), Err(m)) => e@ == m,
            _ => false,
        },
{
    let parsed = if cpp {
        parse_cpp(source)
    } else {
        parse_c(source)
    };
    match parsed {
        Ok(Some(tree)) => {
            let root = root_node(&tree);
            Ok(Some(read_node(&root, Roles::none())))
        },
        Ok(None) => Ok(None),
        Err(e) => Err(e),
    }
}

} // verus!
