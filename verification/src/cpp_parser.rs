//! The parser for C and C++ sources.
use crate::def_pass::DefPass;
use crate::def_pass;
use crate::language::{Language, ReferenceMode};
use crate::lookup::LocationSet;
use crate::parser::Parser;
use crate::ref_pass::{RefEnv, RefPass};
use crate::ref_pass;
use crate::syntax::{SyntaxNode, SyntaxTree, parse_source};
use crate::syntax;
use crate::text::{joined, lines_of};
use crate::text;
use crate::types::{Definition, DefinitionView, FileSymbols, FileSymbolsView};
use vstd::prelude::*;

verus! {

/// The places at which definitions stand: line and column of each.
pub open spec fn places(definitions: Seq<DefinitionView>) -> Set<(usize, usize)> {
    Set::new(
        |p: (usize, usize)|
            exists|i: int|
                0 <= i < definitions.len() && (
                #[trigger] definitions[i]).location.line == p.0 && definitions[i].location.column
                    == p.1,
    )
}

/// The places at which definitions stand.
fn places_of(definitions: &Vec<Definition>) -> (r: LocationSet)
    ensures
        r@ == places(text::views(definitions@)),
{
    let ghost all = text::views(definitions@);
    let mut r = LocationSet::new();
    let mut i: usize = 0;
    assert(places(all.take(0)) =~= r@);
    while i < definitions.len()
        invariant
            all == text::views(definitions@),
            i <= definitions@.len(),
            r@ == places(all.take(i as int)),
        decreases definitions@.len() - i,
    {
        let line: usize = definitions[i].location.line;
        let column: usize = definitions[i].location.column;
        r.insert(line, column);
        proof {
            let before = all.take(i as int);
            let after = all.take(i + 1);
            assert(after[i as int] == definitions@[i as int]@);
            assert forall|p: (usize, usize)| places(after).contains(p) == places(
                before,
            ).insert((line, column)).contains(p) by {
                if places(before).contains(p) {
                    let k = choose|k: int|
                        0 <= k < before.len() && (#[trigger] before[k]).location.line == p.0
                            && before[k].location.column == p.1;
                    assert(after[k] == before[k]);
                }
                if places(after).contains(p) {
                    let k = choose|k: int|
                        0 <= k < after.len() && (#[trigger] after[k]).location.line == p.0
                            && after[k].location.column == p.1;
                    if k < i {
                        assert(before[k] == after[k]);
                    }
                }
            }
            assert(r@ =~= places(after));
        }
        i = i + 1;
    }
    assert(all.take(i as int) =~= all);
    r
}

/// What the reference pass is told of a file whose definitions are known.
pub open spec fn reference_env(
    path: Seq<char>,
    source: Seq<char>,
    definitions: Seq<DefinitionView>,
    mode: ReferenceMode,
    with_context: bool,
) -> RefEnv {
    RefEnv { file: path, source, defined: places(definitions), mode, with_context }
}

/// Everything that a syntax tree contributes to the index: what the definition pass finds in
/// it, then what the reference pass finds with those definitions known.
pub open spec fn tree_symbols(
    path: Seq<char>,
    source: Seq<char>,
    language: Seq<char>,
    t: SyntaxTree,
    mode: ReferenceMode,
    with_context: bool,
) -> FileSymbolsView {
    let found = def_pass::found_in(path, source, t, Seq::empty(), None);
    let env = reference_env(path, source, found.definitions, mode, with_context);
    let uses = ref_pass::uses_in(env, t, Seq::empty(), None, Set::empty());
    FileSymbolsView {
        file: path,
        language,
        definitions: found.definitions,
        references: uses.references,
        calls: uses.calls,
        inherits: found.inherits,
    }
}

/// Where the called names of a syntax tree stand, call by call.
pub open spec fn called_places(
    path: Seq<char>,
    source: Seq<char>,
    t: SyntaxTree,
    mode: ReferenceMode,
    with_context: bool,
) -> Seq<(usize, usize)> {
    let found = def_pass::found_in(path, source, t, Seq::empty(), None);
    let env = reference_env(path, source, found.definitions, mode, with_context);
    ref_pass::uses_in(env, t, Seq::empty(), None, Set::empty()).called
}

/// Collects everything that a syntax tree contributes to the index.
pub fn collect_symbols(
    path: &str,
    source: &str,
    language: &str,
    root: &SyntaxNode,
    mode: ReferenceMode,
    with_context: bool,
) -> (r: FileSymbols)
    ensures
        r@ == tree_symbols(path@, source@, language@, root@, mode, with_context),
{
    let mut first = DefPass::new(path, source);
    proof {
        assert(text::views(first.scopes@) =~= Seq::empty());
        assert(text::views(first.definitions@) =~= Seq::empty());
        assert(text::views(first.inherits@) =~= Seq::empty());
    }
    first.walk_node(root);
    let ghost found = def_pass::found_in(path@, source@, root@, Seq::empty(), None);
    assert(text::views(first.definitions@) =~= found.definitions);
    assert(text::views(first.inherits@) =~= found.inherits);
    let mut second = RefPass {
        file: path,
        source,
        lines: lines_of(source),
        defined: places_of(&first.definitions),
        mode,
        with_context,
        handled: LocationSet::new(),
        scopes: Vec::new(),
        function: None,
        references: Vec::new(),
        calls: Vec::new(),
    };
    proof {
        assert(text::views(second.scopes@) =~= Seq::empty());
        assert(text::views(second.references@) =~= Seq::empty());
        assert(text::views(second.calls@) =~= Seq::empty());
    }
    second.walk_node(root);
    let ghost uses = ref_pass::uses_in(
        reference_env(path@, source@, found.definitions, mode, with_context),
        root@,
        Seq::empty(),
        None,
        Set::empty(),
    );
    assert(text::views(second.references@) =~= uses.references);
    assert(text::views(second.calls@) =~= uses.calls);
    FileSymbols {
        file: path.to_owned(),
        language: language.to_owned(),
        definitions: first.definitions,
        references: second.references,
        calls: second.calls,
        inherits: first.inherits,
    }
}

impl Language {
    /// The name of the language.
    pub open spec fn name(self) -> Seq<char> {
        match self {
            Language::C => "c"@,
            Language::Cpp => "cpp"@,
        }
    }
}

/// C/C++ parser using tree-sitter.
pub struct CppParser {
    pub grammar: Language,
    pub reference_mode: ReferenceMode,
    pub include_reference_context: bool,
}

impl CppParser {
    /// A parser of C that keeps every reference with its line.
    pub fn new_c() -> (r: Self)
        ensures
            r == (CppParser {
                grammar: Language::C,
                reference_mode: ReferenceMode::All,
                include_reference_context: true,
            }),
    {
        CppParser::new_c_with_options(ReferenceMode::All, true)
    }

    /// A parser of C++ that keeps every reference with its line.
    pub fn new_cpp() -> (r: Self)
        ensures
            r == (CppParser {
                grammar: Language::Cpp,
                reference_mode: ReferenceMode::All,
                include_reference_context: true,
            }),
    {
        CppParser::new_cpp_with_options(ReferenceMode::All, true)
    }

    /// A parser of C that keeps the chosen references.
    pub fn new_c_with_options(reference_mode: ReferenceMode, include_reference_context: bool) -> (r:
        Self)
        ensures
            r == (CppParser { grammar: Language::C, reference_mode, include_reference_context }),
    {
        CppParser { grammar: Language::C, reference_mode, include_reference_context }
    }

    /// A parser of C++ that keeps the chosen references.
    pub fn new_cpp_with_options(
        reference_mode: ReferenceMode,
        include_reference_context: bool,
    ) -> (r: Self)
        ensures
            r == (CppParser { grammar: Language::Cpp, reference_mode, include_reference_context }),
    {
        CppParser { grammar: Language::Cpp, reference_mode, include_reference_context }
    }
}

impl Parser for CppParser {
    open spec fn parsed(&self, path: Seq<char>, source: Seq<char>) -> Result<
        FileSymbolsView,
        Seq<char>,
    > {
        match syntax::syntax_of(source, self.grammar == Language::Cpp) {
            Ok(Some(t)) => Ok(
                tree_symbols(
                    path,
                    source,
                    self.grammar.name(),
                    t,
                    self.reference_mode,
                    self.include_reference_context,
                ),
            ),
            Ok(None) => Err("parse returned None"@),
            Err(m) => Err("failed to set language: "@ + m),
        }
    }

    open spec fn language_name(&self) -> Seq<char> {
        self.grammar.name()
    }

    fn parse_file(&self, path: &str, source: &str) -> (r: Result<FileSymbols, String>) {
        match parse_source(source, self.grammar == Language::Cpp) {
            Ok(Some(root)) => Ok(
                collect_symbols(
                    path,
                    source,
                    self.language(),
                    &root,
                    self.reference_mode,
                    self.include_reference_context,
                ),
            ),
            Ok(None) => Err("parse returned None".to_owned()),
            Err(e) => Err(joined("failed to set language: ", e.as_str())),
        }
    }

    fn language(&self) -> (r: &'static str) {
        match self.grammar {
            Language::C => "c",
            Language::Cpp => "cpp",
        }
    }
}

} // verus!
