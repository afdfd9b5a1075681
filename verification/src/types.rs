//! Symbols, references and edges of the cross-reference index.
use crate::text::same;
use crate::text;
use vstd::prelude::*;

verus! {

/// Stable in-memory identifier for a definition.
/// Maps to a position in the definitions vector.
/// Consumers should treat it as opaque.
#[derive(Debug, Clone, Copy, PartialEq, Eq, Hash, Structural)]
pub struct DefId(pub usize);

/// A range of a source file: lines count from one, columns from zero.
#[derive(Debug, PartialEq, Eq, Hash)]
pub struct Location {
    pub file: String,
    pub line: usize,
    pub column: usize,
    pub end_line: usize,
    pub end_column: usize,
}

/// A range of a source file.
pub struct LocationView {
    pub file: Seq<char>,
    pub line: usize,
    pub column: usize,
    pub end_line: usize,
    pub end_column: usize,
}

impl View for Location {
    type V = LocationView;

    open spec fn view(&self) -> LocationView {
        LocationView {
            file: self.file@,
            line: self.line,
            column: self.column,
            end_line: self.end_line,
            end_column: self.end_column,
        }
    }
}

impl Clone for Location {
    fn clone(&self) -> (r: Self)
        ensures
            r@ == self@,
    {
        Location {
            file: self.file.clone(),
            line: self.line,
            column: self.column,
            end_line: self.end_line,
            end_column: self.end_column,
        }
    }
}

/// What a definition defines.
#[derive(Debug, Clone, Copy, PartialEq, Eq, Hash, Structural)]
pub enum SymbolKind {
    Function,
    Method,
    Constructor,
    Destructor,
    Macro,
    Variable,
    Class,
    Struct,
    Union,
    Enum,
    EnumVariant,
    Typedef,
    Namespace,
    Field,
}

impl SymbolKind {
    /// The name under which a kind is stored.
    pub open spec fn name(self) -> Seq<char> {
        match self {
            SymbolKind::Function => "function"@,
            SymbolKind::Method => "method"@,
            SymbolKind::Constructor => "constructor"@,
            SymbolKind::Destructor => "destructor"@,
            SymbolKind::Macro => "macro"@,
            SymbolKind::Variable => "variable"@,
            SymbolKind::Class => "class"@,
            SymbolKind::Struct => "struct"@,
            SymbolKind::Union => "union"@,
            SymbolKind::Enum => "enum"@,
            SymbolKind::EnumVariant => "enum_variant"@,
            SymbolKind::Typedef => "typedef"@,
            SymbolKind::Namespace => "namespace"@,
            SymbolKind::Field => "field"@,
        }
    }

    /// The kind that a name stands for.
    pub open spec fn named(s: Seq<char>) -> Option<SymbolKind> {
        if exists|k: SymbolKind| #[trigger] k.name() == s {
            Some(choose|k: SymbolKind| #[trigger] k.name() == s)
        } else {
            None
        }
    }

    /// The name under which a kind is stored.
    pub fn as_str(&self) -> (r: &'static str)
        ensures
            r@ == self.name(),
    {
        match self {
            SymbolKind::Function => "function",
            SymbolKind::Method => "method",
            SymbolKind::Constructor => "constructor",
            SymbolKind::Destructor => "destructor",
            SymbolKind::Macro => "macro",
            SymbolKind::Variable => "variable",
            SymbolKind::Class => "class",
            SymbolKind::Struct => "struct",
            SymbolKind::Union => "union",
            SymbolKind::Enum => "enum",
            SymbolKind::EnumVariant => "enum_variant",
            SymbolKind::Typedef => "typedef",
            SymbolKind::Namespace => "namespace",
            SymbolKind::Field => "field",
        }
    }

    /// The kind stored under a name, if it is the name of one.
    pub fn from_str(s: &str) -> (r: Option<Self>)
        ensures
            r == SymbolKind::named(s@),
            r matches Some(k) ==> k.name() == s@,
            r is None ==> forall|k: SymbolKind| #[trigger] k.name() != s@,
    {
        if same(s, "function") {
            proof {
                lemma_kind_named(SymbolKind::Function);
            }
            return Some(SymbolKind::Function);
        }
        if same(s, "method") {
            proof {
                lemma_kind_named(SymbolKind::Method);
            }
            return Some(SymbolKind::Method);
        }
        if same(s, "constructor") {
            proof {
                lemma_kind_named(SymbolKind::Constructor);
            }
            return Some(SymbolKind::Constructor);
        }
        if same(s, "destructor") {
            proof {
                lemma_kind_named(SymbolKind::Destructor);
            }
            return Some(SymbolKind::Destructor);
        }
        if same(s, "macro") {
            proof {
                lemma_kind_named(SymbolKind::Macro);
            }
            return Some(SymbolKind::Macro);
        }
        if same(s, "variable") {
            proof {
                lemma_kind_named(SymbolKind::Variable);
            }
            return Some(SymbolKind::Variable);
        }
        if same(s, "class") {
            proof {
                lemma_kind_named(SymbolKind::Class);
            }
            return Some(SymbolKind::Class);
        }
        if same(s, "struct") {
            proof {
                lemma_kind_named(SymbolKind::Struct);
            }
            return Some(SymbolKind::Struct);
        }
        if same(s, "union") {
            proof {
                lemma_kind_named(SymbolKind::Union);
            }
            return Some(SymbolKind::Union);
        }
        if same(s, "enum") {
            proof {
                lemma_kind_named(SymbolKind::Enum);
            }
            return Some(SymbolKind::Enum);
        }
        if same(s, "enum_variant") {
            proof {
                lemma_kind_named(SymbolKind::EnumVariant);
            }
            return Some(SymbolKind::EnumVariant);
        }
        if same(s, "typedef") {
            proof {
                lemma_kind_named(SymbolKind::Typedef);
            }
            return Some(SymbolKind::Typedef);
        }
        if same(s, "namespace") {
            proof {
                lemma_kind_named(SymbolKind::Namespace);
            }
            return Some(SymbolKind::Namespace);
        }
        if same(s, "field") {
            proof {
                lemma_kind_named(SymbolKind::Field);
            }
            return Some(SymbolKind::Field);
        }
        assert(forall|k: SymbolKind| #[trigger] k.name() != s@);
        None
    }
}

/// No two kinds of symbol are stored under one name.
pub proof fn lemma_kind_names_distinct(a: SymbolKind, b: SymbolKind)
    requires
        a.name() == b.name(),
    ensures
        a == b,
{
    reveal_strlit("function");
    reveal_strlit("method");
    reveal_strlit("constructor");
    reveal_strlit("destructor");
    reveal_strlit("macro");
    reveal_strlit("variable");
    reveal_strlit("class");
    reveal_strlit("struct");
    reveal_strlit("union");
    reveal_strlit("enum");
    reveal_strlit("enum_variant");
    reveal_strlit("typedef");
    reveal_strlit("namespace");
    reveal_strlit("field");
    assert("function"@.len() == 8 && "function"@[0] == 'f');
    assert("method"@.len() == 6 && "method"@[0] == 'm');
    assert("constructor"@.len() == 11 && "constructor"@[0] == 'c');
    assert("destructor"@.len() == 10 && "destructor"@[0] == 'd');
    assert("macro"@.len() == 5 && "macro"@[0] == 'm');
    assert("variable"@.len() == 8 && "variable"@[0] == 'v');
    assert("class"@.len() == 5 && "class"@[0] == 'c');
    assert("struct"@.len() == 6 && "struct"@[0] == 's');
    assert("union"@.len() == 5 && "union"@[0] == 'u');
    assert("enum"@.len() == 4 && "enum"@[0] == 'e');
    assert("enum_variant"@.len() == 12 && "enum_variant"@[0] == 'e');
    assert("typedef"@.len() == 7 && "typedef"@[0] == 't');
    assert("namespace"@.len() == 9 && "namespace"@[0] == 'n');
    assert("field"@.len() == 5 && "field"@[0] == 'f');
}

/// A kind is read back from the name under which it is stored.
pub proof fn lemma_kind_named(k: SymbolKind)
    ensures
        SymbolKind::named(k.name()) == Some(k),
{
    assert(k.name() == k.name());
    let c = choose|c: SymbolKind| #[trigger] c.name() == k.name();
    lemma_kind_names_distinct(c, k);
}

/// Who may name a member.
#[derive(Debug, Clone, Copy, PartialEq, Eq, Structural)]
pub enum Visibility {
    Public,
    Protected,
    Private,
}

impl Visibility {
    /// The name under which a visibility is stored.
    pub open spec fn name(self) -> Seq<char> {
        match self {
            Visibility::Public => "public"@,
            Visibility::Protected => "protected"@,
            Visibility::Private => "private"@,
        }
    }

    /// The visibility that a name stands for.
    pub open spec fn named(s: Seq<char>) -> Option<Visibility> {
        if s == "public"@ {
            Some(Visibility::Public)
        } else if s == "protected"@ {
            Some(Visibility::Protected)
        } else if s == "private"@ {
            Some(Visibility::Private)
        } else {
            None
        }
    }

    /// The name under which a visibility is stored.
    pub fn as_str(&self) -> (r: &'static str)
        ensures
            r@ == self.name(),
    {
        match self {
            Visibility::Public => "public",
            Visibility::Protected => "protected",
            Visibility::Private => "private",
        }
    }

    /// The visibility stored under a name, if it is the name of one.
    pub fn from_str(s: &str) -> (r: Option<Self>)
        ensures
            r == Visibility::named(s@),
    {
        if same(s, "public") {
            Some(Visibility::Public)
        } else if same(s, "protected") {
            Some(Visibility::Protected)
        } else if same(s, "private") {
            Some(Visibility::Private)
        } else {
            None
        }
    }
}

/// A visibility is read back from the name under which it is stored.
pub proof fn lemma_visibility_named(v: Visibility)
    ensures
        Visibility::named(v.name()) == Some(v),
{
    reveal_strlit("public");
    reveal_strlit("protected");
    reveal_strlit("private");
    assert("public"@.len() == 6 && "protected"@.len() == 9 && "private"@.len() == 7);
}

/// A symbol that a source file defines or declares.
#[derive(Debug)]
pub struct Definition {
    pub id: Option<i64>,
    pub name: String,
    pub qualified_name: String,
    pub kind: SymbolKind,
    pub location: Location,
    pub parent: Option<String>,
    pub signature: Option<String>,
    pub visibility: Visibility,
    pub is_definition: bool,
    pub extra: Option<String>,
}

/// A symbol that a source file defines or declares.
pub struct DefinitionView {
    pub id: Option<i64>,
    pub name: Seq<char>,
    pub qualified_name: Seq<char>,
    pub kind: SymbolKind,
    pub location: LocationView,
    pub parent: Option<Seq<char>>,
    pub signature: Option<Seq<char>>,
    pub visibility: Visibility,
    pub is_definition: bool,
    pub extra: Option<Seq<char>>,
}

impl View for Definition {
    type V = DefinitionView;

    open spec fn view(&self) -> DefinitionView {
        DefinitionView {
            id: self.id,
            name: self.name@,
            qualified_name: self.qualified_name@,
            kind: self.kind,
            location: self.location@,
            parent: text::view_opt(self.parent),
            signature: text::view_opt(self.signature),
            visibility: self.visibility,
            is_definition: self.is_definition,
            extra: text::view_opt(self.extra),
        }
    }
}

/// A copy of an optional text.
pub fn copy_opt(o: &Option<String>) -> (r: Option<String>)
    ensures
        text::view_opt(r) == text::view_opt(*o),
{
    match o {
        Some(s) => Some(s.clone()),
        None => None,
    }
}

impl Clone for Definition {
    fn clone(&self) -> (r: Self)
        ensures
            r@ == self@,
    {
        Definition {
            id: self.id,
            name: self.name.clone(),
            qualified_name: self.qualified_name.clone(),
            kind: self.kind,
            location: self.location.clone(),
            parent: copy_opt(&self.parent),
            signature: copy_opt(&self.signature),
            visibility: self.visibility,
            is_definition: self.is_definition,
            extra: copy_opt(&self.extra),
        }
    }
}

/// A place where a symbol is used.
#[derive(Debug)]
pub struct Reference {
    pub id: Option<i64>,
    pub name: String,
    pub kind: SymbolKind,
    pub location: Location,
    pub def_id: Option<DefId>,
    pub context: Option<String>,
}

/// A place where a symbol is used.
pub struct ReferenceView {
    pub id: Option<i64>,
    pub name: Seq<char>,
    pub kind: SymbolKind,
    pub location: LocationView,
    pub def_id: Option<DefId>,
    pub context: Option<Seq<char>>,
}

impl View for Reference {
    type V = ReferenceView;

    open spec fn view(&self) -> ReferenceView {
        ReferenceView {
            id: self.id,
            name: self.name@,
            kind: self.kind,
            location: self.location@,
            def_id: self.def_id,
            context: text::view_opt(self.context),
        }
    }
}

impl Clone for Reference {
    fn clone(&self) -> (r: Self)
        ensures
            r@ == self@,
    {
        Reference {
            id: self.id,
            name: self.name.clone(),
            kind: self.kind,
            location: self.location.clone(),
            def_id: self.def_id,
            context: copy_opt(&self.context),
        }
    }
}

/// A call from one function to another.
#[derive(Debug)]
pub struct CallEdge {
    pub caller_name: String,
    pub callee_name: String,
    pub location: Location,
}

/// A call from one function to another.
pub struct CallEdgeView {
    pub caller_name: Seq<char>,
    pub callee_name: Seq<char>,
    pub location: LocationView,
}

impl View for CallEdge {
    type V = CallEdgeView;

    open spec fn view(&self) -> CallEdgeView {
        CallEdgeView {
            caller_name: self.caller_name@,
            callee_name: self.callee_name@,
            location: self.location@,
        }
    }
}

impl Clone for CallEdge {
    fn clone(&self) -> (r: Self)
        ensures
            r@ == self@,
    {
        CallEdge {
            caller_name: self.caller_name.clone(),
            callee_name: self.callee_name.clone(),
            location: self.location.clone(),
        }
    }
}

/// A class that names another as its base.
#[derive(Debug)]
pub struct InheritEdge {
    pub derived_name: String,
    pub base_name: String,
    pub location: Location,
    pub access: Visibility,
    pub is_virtual: bool,
}

/// A class that names another as its base.
pub struct InheritEdgeView {
    pub derived_name: Seq<char>,
    pub base_name: Seq<char>,
    pub location: LocationView,
    pub access: Visibility,
    pub is_virtual: bool,
}

impl View for InheritEdge {
    type V = InheritEdgeView;

    open spec fn view(&self) -> InheritEdgeView {
        InheritEdgeView {
            derived_name: self.derived_name@,
            base_name: self.base_name@,
            location: self.location@,
            access: self.access,
            is_virtual: self.is_virtual,
        }
    }
}

impl Clone for InheritEdge {
    fn clone(&self) -> (r: Self)
        ensures
            r@ == self@,
    {
        InheritEdge {
            derived_name: self.derived_name.clone(),
            base_name: self.base_name.clone(),
            location: self.location.clone(),
            access: self.access,
            is_virtual: self.is_virtual,
        }
    }
}

/// Metadata about an indexed file.
#[derive(Debug)]
pub struct IndexedFile {
    pub path: String,
    pub language: String,
    pub checksum: Option<String>,
    pub symbols_checksum: Option<String>,
}

/// Metadata about an indexed file.
pub struct IndexedFileView {
    pub path: Seq<char>,
    pub language: Seq<char>,
    pub checksum: Option<Seq<char>>,
    pub symbols_checksum: Option<Seq<char>>,
}

impl View for IndexedFile {
    type V = IndexedFileView;

    open spec fn view(&self) -> IndexedFileView {
        IndexedFileView {
            path: self.path@,
            language: self.language@,
            checksum: text::view_opt(self.checksum),
            symbols_checksum: text::view_opt(self.symbols_checksum),
        }
    }
}

impl Clone for IndexedFile {
    fn clone(&self) -> (r: Self)
        ensures
            r@ == self@,
    {
        IndexedFile {
            path: self.path.clone(),
            language: self.language.clone(),
            checksum: copy_opt(&self.checksum),
            symbols_checksum: copy_opt(&self.symbols_checksum),
        }
    }
}

/// Everything that one source file contributes to the index.
#[derive(Debug)]
pub struct FileSymbols {
    pub file: String,
    pub language: String,
    pub definitions: Vec<Definition>,
    pub references: Vec<Reference>,
    pub calls: Vec<CallEdge>,
    pub inherits: Vec<InheritEdge>,
}

/// Everything that one source file contributes to the index.
pub struct FileSymbolsView {
    pub file: Seq<char>,
    pub language: Seq<char>,
    pub definitions: Seq<DefinitionView>,
    pub references: Seq<ReferenceView>,
    pub calls: Seq<CallEdgeView>,
    pub inherits: Seq<InheritEdgeView>,
}

impl View for FileSymbols {
    type V = FileSymbolsView;

    open spec fn view(&self) -> FileSymbolsView {
        FileSymbolsView {
            file: self.file@,
            language: self.language@,
            definitions: text::views(self.definitions@),
            references: text::views(self.references@),
            calls: text::views(self.calls@),
            inherits: text::views(self.inherits@),
        }
    }
}

/// A copy of each value.
pub fn copy_all<T: View + Clone>(from: &Vec<T>) -> (r: Vec<T>)
    requires
        forall|a: T, b: T| #[trigger] cloned(a, b) ==> a@ == b@,
    ensures
        text::views(r@) == text::views(from@),
{
    let mut r: Vec<T> = Vec::new();
    let mut i: usize = 0;
    while i < from.len()
        invariant
            i <= from@.len(),
            forall|a: T, b: T| #[trigger] cloned(a, b) ==> a@ == b@,
            text::views(r@) == text::views(from@).take(i as int),
        decreases from@.len() - i,
    {
        let t = from[i].clone();
        proof {
            crate::text::lemma_views_push(r@, t);
            assert(cloned(from@[i as int], t));
            assert(text::views(from@).take(i + 1) =~= text::views(from@).take(i as int).push(t@));
        }
        r.push(t);
        i = i + 1;
    }
    assert(text::views(from@).take(i as int) =~= text::views(from@));
    r
}

impl Clone for FileSymbols {
    fn clone(&self) -> (r: Self)
        ensures
            r@ == self@,
    {
        FileSymbols {
            file: self.file.clone(),
            language: self.language.clone(),
            definitions: copy_all(&self.definitions),
            references: copy_all(&self.references),
            calls: copy_all(&self.calls),
            inherits: copy_all(&self.inherits),
        }
    }
}

} // verus!
