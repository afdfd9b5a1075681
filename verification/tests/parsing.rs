use xref_indexer::cpp_parser::CppParser;
use xref_indexer::index::Index;
use xref_indexer::indexer::{Indexer, NamedSource};
use xref_indexer::language::{Language, ReferenceMode};
use xref_indexer::lookup::LocationSet;
use xref_indexer::parser::Parser;
use xref_indexer::ref_pass::RefPass;
use xref_indexer::syntax::parse_source;
use xref_indexer::text::lines_of;
use xref_indexer::types::{Definition, FileSymbols, SymbolKind, Visibility};

fn parse(source: &str, mode: ReferenceMode) -> FileSymbols {
    CppParser::new_cpp_with_options(mode, false)
        .parse_file("x.cpp", source)
        .expect("parsing should succeed")
}

fn named<'a>(symbols: &'a FileSymbols, qualified: &str) -> &'a Definition {
    symbols
        .definitions
        .iter()
        .find(|d| d.qualified_name == qualified)
        .unwrap_or_else(|| {
            panic!(
                "expected {qualified}; got {:?}",
                symbols
                    .definitions
                    .iter()
                    .map(|d| d.qualified_name.as_str())
                    .collect::<Vec<_>>()
            )
        })
}

#[test]
fn syntax_trees_name_their_root() {
    let root = parse_source("int x;", true)
        .expect("parsing should succeed")
        .expect("a tree");
    assert_eq!(root.text("int x;"), "int x;");
    assert!(!root.children.is_empty());
}

#[test]
fn scopes_make_qualified_names() {
    let symbols = parse(
        "namespace a { namespace b { struct S { int f; void m(); }; enum E { X }; } }
         void a::b::S::m() {}
         union U { int i; };
         typedef int number;
         #define TWICE(x) ((x) + (x))
         int global;",
        ReferenceMode::Off,
    );
    assert_eq!(named(&symbols, "a::b").kind, SymbolKind::Namespace);
    assert_eq!(named(&symbols, "a::b::S").kind, SymbolKind::Struct);
    assert_eq!(named(&symbols, "a::b::S").parent.as_deref(), Some("a::b"));
    assert_eq!(named(&symbols, "a::b::S::f").kind, SymbolKind::Field);
    assert_eq!(named(&symbols, "a::b::S::m").kind, SymbolKind::Method);
    assert_eq!(named(&symbols, "a::b::E").kind, SymbolKind::Enum);
    assert_eq!(named(&symbols, "a::b::E::X").kind, SymbolKind::EnumVariant);
    assert_eq!(named(&symbols, "U").kind, SymbolKind::Union);
    assert_eq!(named(&symbols, "number").kind, SymbolKind::Typedef);
    assert_eq!(named(&symbols, "TWICE").kind, SymbolKind::Macro);
    assert_eq!(named(&symbols, "global").kind, SymbolKind::Variable);
}

#[test]
fn class_members_have_kinds_and_visibility() {
    let symbols = parse(
        "class C { int hidden; public: C(); ~C(); void open(); protected: int half; };",
        ReferenceMode::Off,
    );
    assert_eq!(named(&symbols, "C::hidden").visibility, Visibility::Private);
    assert_eq!(named(&symbols, "C::C").kind, SymbolKind::Constructor);
    assert_eq!(named(&symbols, "C::~C").kind, SymbolKind::Destructor);
    assert_eq!(named(&symbols, "C::open").visibility, Visibility::Public);
    assert!(!named(&symbols, "C::open").is_definition);
    assert_eq!(named(&symbols, "C::half").visibility, Visibility::Protected);
}

#[test]
fn base_classes_have_access_and_virtual_flags() {
    let symbols = parse(
        "struct A {}; struct B {}; class D : public virtual A, private B {}; struct E : A {};",
        ReferenceMode::Off,
    );
    let edges: Vec<(&str, &str, Visibility, bool)> = symbols
        .inherits
        .iter()
        .map(|e| {
            (
                e.derived_name.as_str(),
                e.base_name.as_str(),
                e.access,
                e.is_virtual,
            )
        })
        .collect();
    assert!(edges.contains(&("D", "A", Visibility::Public, true)), "{edges:?}");
    assert!(edges.contains(&("D", "B", Visibility::Private, false)), "{edges:?}");
    assert!(edges.contains(&("E", "A", Visibility::Public, false)), "{edges:?}");
}

#[test]
fn reference_modes_differ_only_in_references() {
    let source = "int g; void f() {} void h() { f(); g = 1; }";
    let off = parse(source, ReferenceMode::Off);
    let calls = parse(source, ReferenceMode::Calls);
    let all = parse(source, ReferenceMode::All);
    assert!(off.references.is_empty());
    assert_eq!(
        calls.references.iter().map(|r| r.name.as_str()).collect::<Vec<_>>(),
        vec!["f"]
    );
    assert!(all.references.iter().any(|r| r.name == "g"));
    for symbols in [&off, &calls, &all] {
        assert_eq!(symbols.calls.len(), 1);
        assert_eq!(symbols.calls[0].caller_name, "h");
        assert_eq!(symbols.calls[0].callee_name, "f");
        assert_eq!(symbols.definitions.len(), off.definitions.len());
    }
}

#[test]
fn reference_context_is_the_source_line() {
    let source = "void f() {}\nvoid h() {\n    f();\n}\n";
    let with = CppParser::new_cpp_with_options(ReferenceMode::Calls, true)
        .parse_file("x.cpp", source)
        .expect("parsing should succeed");
    assert_eq!(with.references[0].context.as_deref(), Some("    f();"));
    assert_eq!(with.references[0].location.line, 3);
    let without = parse(source, ReferenceMode::Calls);
    assert_eq!(without.references[0].context, None);
}

#[test]
fn member_and_qualified_calls_are_edges() {
    let symbols = parse(
        "namespace n { void q(); } struct S { void m(); };
         void f(S s, S *p) { s.m(); p->m(); n::q(); }",
        ReferenceMode::Calls,
    );
    let callees: Vec<&str> = symbols.calls.iter().map(|c| c.callee_name.as_str()).collect();
    assert_eq!(callees.iter().filter(|c| **c == "m").count(), 2, "{callees:?}");
    assert!(callees.iter().any(|c| c.ends_with("q")), "{callees:?}");
    assert!(symbols.calls.iter().all(|c| c.caller_name == "f"));
}

#[test]
fn the_c_parser_reads_c() {
    let symbols = CppParser::new_c()
        .parse_file("x.c", "struct s { int a; };\nint add(int a, int b) { return a + b; }\n")
        .expect("parsing should succeed");
    assert_eq!(symbols.language, "c");
    assert_eq!(symbols.file, "x.c");
    assert_eq!(named(&symbols, "s").kind, SymbolKind::Struct);
    let add = named(&symbols, "add");
    assert_eq!(add.kind, SymbolKind::Function);
    assert!(add.is_definition);
    assert_eq!(add.location.line, 2);
    assert_eq!(CppParser::new_c().language(), "c");
    assert_eq!(CppParser::new_cpp().language(), "cpp");
    let word = CppParser::new_c()
        .parse_file("x.c", "int class = 1;")
        .expect("parsing should succeed");
    assert_eq!(named(&word, "class").kind, SymbolKind::Variable);
}

fn index(files: &[(&str, &str)]) -> Index {
    let sources: Vec<NamedSource> = files
        .iter()
        .map(|(path, source)| NamedSource {
            path: path.to_string(),
            source: source.to_string(),
        })
        .collect();
    Indexer::builder()
        .language(Language::Cpp)
        .build()
        .index_sources(&sources)
        .expect("indexing should succeed")
}

#[test]
fn names_with_one_meaning_are_resolved() {
    let ix = index(&[
        ("a.cpp", "namespace a { void once() {} void twice() {} }"),
        ("b.cpp", "namespace b { void twice() {} } void f() { once(); twice(); a::twice(); }"),
    ]);
    let once = ix.find_references("once");
    assert_eq!(once.len(), 1);
    let id = once[0].def_id.expect("a single definition");
    assert_eq!(ix.resolve(id).qualified_name, "a::once");
    assert_eq!(ix.find_references("twice")[0].def_id, None);
    assert_eq!(ix.link_name("a::twice").map(|id| ix.resolve(id).qualified_name.clone()),
        Some("a::twice".to_string()));
    assert_eq!(ix.link_name("twice"), None);
    assert_eq!(ix.link_name("nothing"), None);
}

#[test]
fn names_with_two_definitions_stay_unresolved() {
    let ix = index(&[(
        "a.cpp",
        "int compute(int x);\nint compute(int x) { return x; }\nint user() { return compute(1); }\n",
    )]);
    let compute: Vec<&str> = ix
        .definitions()
        .iter()
        .filter(|d| d.name == "compute")
        .map(|d| d.qualified_name.as_str())
        .collect();
    assert_eq!(compute, vec!["compute", "compute"]);
    let uses = ix.find_references("compute");
    assert!(!uses.is_empty());
    assert!(uses.iter().all(|r| r.def_id.is_none()));
    assert_eq!(ix.link_name("compute").map(|id| ix.resolve(id).location.line), Some(2));
}

#[test]
fn search_ignores_case() {
    let ix = index(&[("a.cpp", "void WidgetFactory() {} void other() {}")]);
    let upper: Vec<&str> = ix.search_symbols("WIDGETF").iter().map(|d| d.name.as_str()).collect();
    let lower: Vec<&str> = ix.search_symbols("widgetf").iter().map(|d| d.name.as_str()).collect();
    assert_eq!(upper, vec!["WidgetFactory"]);
    assert_eq!(upper, lower);
    assert_eq!(ix.search_symbols("").len(), 2);
}

#[test]
fn hierarchies_show_bases_and_derived_classes() {
    let ix = index(&[(
        "a.cpp",
        "namespace n { struct Base {}; struct Mid : Base {}; struct Leaf : Mid {}; struct BaseImpl {}; }",
    )]);
    let mid = ix.class_hierarchy("Mid");
    assert_eq!(mid.bases.iter().map(|d| d.name.as_str()).collect::<Vec<_>>(), vec!["Base"]);
    assert_eq!(mid.derived.iter().map(|d| d.name.as_str()).collect::<Vec<_>>(), vec!["Leaf"]);
    let base = ix.class_hierarchy("Base");
    assert!(base.bases.is_empty());
    assert_eq!(base.derived.len(), 1);
    let qualified = ix.class_hierarchy("n::Mid");
    assert_eq!(
        qualified.bases.iter().map(|d| d.qualified_name.as_str()).collect::<Vec<_>>(),
        vec!["n::Base"]
    );
    assert_eq!(
        qualified.derived.iter().map(|d| d.qualified_name.as_str()).collect::<Vec<_>>(),
        vec!["n::Leaf"]
    );
    let elsewhere = ix.class_hierarchy("m::Mid");
    assert!(elsewhere.bases.is_empty() && elsewhere.derived.is_empty());
}

#[test]
fn definitions_are_found_by_either_name() {
    let ix = index(&[("a.cpp", "namespace n { void f(); } namespace m { void f(); }")]);
    assert_eq!(ix.find_definition("n::f").len(), 1);
    assert_eq!(ix.find_definition("f").len(), 2);
    assert!(ix.find_definition("g").is_empty());
    assert_eq!(ix.definition_count(), 4);
    assert_eq!(ix.files().len(), 1);
    assert_eq!(ix.files()[0].path, "a.cpp");
    assert_eq!(ix.files()[0].language, "cpp");
}

#[test]
fn calls_name_the_function_they_stand_in() {
    let symbols = parse(
        "int f() { return 1; }\nint x = f();\nnamespace n { struct S { int m() { return f(); } }; }\n",
        ReferenceMode::Calls,
    );
    let callers: Vec<&str> = symbols.calls.iter().map(|c| c.caller_name.as_str()).collect();
    assert_eq!(callers, vec!["", "n::S::m"]);
    assert_eq!(named(&symbols, "n::S::m").kind, SymbolKind::Method);
}

#[test]
fn the_access_of_a_base_is_not_that_of_the_members() {
    let symbols = parse("class D : public B { int x; public: int y; };", ReferenceMode::Off);
    assert_eq!(named(&symbols, "D::x").visibility, Visibility::Private);
    assert_eq!(named(&symbols, "D::y").visibility, Visibility::Public);
    assert_eq!(symbols.inherits[0].access, Visibility::Public);
    let symbols = parse("struct E : private B { int z; };", ReferenceMode::Off);
    assert_eq!(named(&symbols, "E::z").visibility, Visibility::Public);
}

fn names_and_kinds(symbols: &FileSymbols) -> Vec<(&str, SymbolKind)> {
    symbols
        .definitions
        .iter()
        .map(|d| (d.qualified_name.as_str(), d.kind))
        .collect()
}

#[test]
fn every_declarator_declares() {
    let symbols = parse("int a, b;", ReferenceMode::All);
    assert_eq!(
        names_and_kinds(&symbols),
        vec![("a", SymbolKind::Variable), ("b", SymbolKind::Variable)]
    );
    assert!(symbols.references.is_empty());

    let symbols = parse("int a = k, *b, c[3], f(int), &d = a;", ReferenceMode::Off);
    assert_eq!(
        names_and_kinds(&symbols),
        vec![
            ("a", SymbolKind::Variable),
            ("b", SymbolKind::Variable),
            ("c", SymbolKind::Variable),
            ("f", SymbolKind::Function),
            ("d", SymbolKind::Variable),
        ]
    );

    let symbols = parse("struct S { int x, *y; int z = w; };", ReferenceMode::All);
    assert_eq!(
        names_and_kinds(&symbols),
        vec![
            ("S", SymbolKind::Struct),
            ("S::x", SymbolKind::Field),
            ("S::y", SymbolKind::Field),
            ("S::z", SymbolKind::Field),
        ]
    );
    assert!(symbols.references.iter().any(|r| r.name == "w"));

    let symbols = CppParser::new_c()
        .parse_file("x.c", "struct s { int a, b; };")
        .expect("parsing should succeed");
    assert_eq!(
        names_and_kinds(&symbols),
        vec![
            ("s", SymbolKind::Struct),
            ("s::a", SymbolKind::Field),
            ("s::b", SymbolKind::Field),
        ]
    );
}

#[test]
fn values_declare_nothing() {
    let symbols = parse("void f() { if (int x = y) {} }", ReferenceMode::Off);
    assert_eq!(
        names_and_kinds(&symbols),
        vec![("f", SymbolKind::Function), ("x", SymbolKind::Variable)]
    );
}

#[test]
fn pointers_to_functions_are_variables() {
    let symbols = parse("int (*handler)(int);\nint *(*maker)(int);", ReferenceMode::Off);
    assert_eq!(
        names_and_kinds(&symbols),
        vec![("handler", SymbolKind::Variable), ("maker", SymbolKind::Variable)]
    );
}

#[test]
fn functions_that_return_pointers_have_their_own_names() {
    let symbols = parse("Foo *make() { return other(); }", ReferenceMode::All);
    assert_eq!(names_and_kinds(&symbols), vec![("make", SymbolKind::Function)]);
    let make = named(&symbols, "make");
    assert!(make.is_definition);
    assert_eq!(make.signature.as_deref(), Some("Foo *make()"));
    assert_eq!(make.location.column, 5);
    assert_eq!(symbols.calls[0].caller_name, "make");

    let symbols = parse("Foo *make();\nFoo &same();\nint **deep(int);", ReferenceMode::Off);
    assert_eq!(
        names_and_kinds(&symbols),
        vec![
            ("make", SymbolKind::Function),
            ("same", SymbolKind::Function),
            ("deep", SymbolKind::Function),
        ]
    );
    assert_eq!(named(&symbols, "make").signature.as_deref(), Some("Foo *make();"));
    assert!(!named(&symbols, "make").is_definition);

    let symbols = parse(
        "struct S { S &self() { return *this; } S *next(); };\nS *S::next() { return 0; }",
        ReferenceMode::Off,
    );
    assert_eq!(
        names_and_kinds(&symbols),
        vec![
            ("S", SymbolKind::Struct),
            ("S::self", SymbolKind::Method),
            ("S::next", SymbolKind::Method),
            ("S::next", SymbolKind::Method),
        ]
    );
    assert_eq!(symbols.definitions[3].signature.as_deref(), Some("S *S::next()"));
}

fn uses(symbols: &FileSymbols) -> Vec<(&str, usize)> {
    symbols
        .references
        .iter()
        .map(|r| (r.name.as_str(), r.location.column))
        .collect()
}

#[test]
fn references_of_calls_stand_at_the_called_name() {
    let mut symbols = parse("void g() { obj.method(); }", ReferenceMode::All);
    symbols.references.sort_by_key(|r| r.location.column);
    assert_eq!(uses(&symbols), vec![("obj", 11), ("method", 15)]);

    let mut symbols = parse("void g() { ns::func(); }", ReferenceMode::All);
    symbols.references.sort_by_key(|r| r.location.column);
    assert_eq!(uses(&symbols), vec![("ns", 11), ("func", 15)]);

    let symbols = parse("void g() { a::b::c(); p->m(); f(); }", ReferenceMode::Calls);
    assert_eq!(uses(&symbols), vec![("c", 17), ("m", 25), ("f", 30)]);
    assert_eq!(
        symbols.calls.iter().map(|c| c.callee_name.as_str()).collect::<Vec<_>>(),
        vec!["c", "m", "f"]
    );
}

#[test]
fn contexts_are_lines_counted_from_one() {
    let source = "a\r\n\nlast\n";
    let pass = RefPass {
        file: "x.cpp",
        source,
        lines: lines_of(source),
        defined: LocationSet::new(),
        mode: ReferenceMode::All,
        with_context: true,
        handled: LocationSet::new(),
        scopes: Vec::new(),
        function: None,
        references: Vec::new(),
        calls: Vec::new(),
    };
    assert_eq!(pass.line_context(0), None);
    assert_eq!(pass.line_context(1).as_deref(), Some("a\r"));
    assert_eq!(pass.line_context(2).as_deref(), Some(""));
    assert_eq!(pass.line_context(3).as_deref(), Some("last"));
    assert_eq!(pass.line_context(4), None);
    assert_eq!(pass.line_context(5), None);
}
