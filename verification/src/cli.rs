//! The commands: what their arguments mean.
use crate::args::{
    parse_language, parse_reference_mode, roots_from_args, usize_of, ArgsView, ParsedArgs,
};
use crate::args;
use crate::benchmark::BenchmarkConfig;
use crate::config::{IndexConfig, IndexConfigView};
use crate::indexer::{Indexer, IndexerView};
use crate::language::ReferenceMode;
use crate::text::{chars_of, join_texts, joined, same, string_of, to_ascii_lower, trim};
use crate::text;
use vstd::prelude::*;

verus! {

/// What can be asked for.
#[derive(Debug, Clone, Copy, PartialEq, Eq, Structural)]
pub enum Command {
    Index,
    Reindex,
    Bench,
    Stats,
    Find,
    Search,
    Refs,
    Callers,
    Callees,
    Hierarchy,
    Context,
    Expand,
    Sql,
}

/// The command of a name.
pub open spec fn command_of(name: Seq<char>) -> Result<Command, Seq<char>> {
    if name == "index"@ {
        Ok(Command::Index)
    } else if name == "reindex"@ {
        Ok(Command::Reindex)
    } else if name == "bench"@ || name == "benchmark"@ {
        Ok(Command::Bench)
    } else if name == "stats"@ {
        Ok(Command::Stats)
    } else if name == "find"@ || name == "def"@ || name == "definitions"@ {
        Ok(Command::Find)
    } else if name == "search"@ {
        Ok(Command::Search)
    } else if name == "refs"@ || name == "references"@ {
        Ok(Command::Refs)
    } else if name == "callers"@ {
        Ok(Command::Callers)
    } else if name == "callees"@ {
        Ok(Command::Callees)
    } else if name == "hierarchy"@ {
        Ok(Command::Hierarchy)
    } else if name == "context"@ || name == "snippet"@ {
        Ok(Command::Context)
    } else if name == "expand"@ {
        Ok(Command::Expand)
    } else if name == "sql"@ || name == "query"@ {
        Ok(Command::Sql)
    } else {
        Err("unknown command '"@ + name + "'"@)
    }
}

/// Whether a result is a value or a message.
pub open spec fn gives<T>(r: Result<T, String>, wanted: Result<T, Seq<char>>) -> bool {
    match (r, wanted) {
        (Ok(a), Ok(b)) => a == b,
        (Err(a), Err(b)) => a@ == b,
        _ => false,
    }
}

/// The command of a name.
pub fn parse_command(name: &str) -> (r: Result<Command, String>)
    ensures
        gives(r, command_of(name@)),
{
    if same(name, "index") {
        Ok(Command::Index)
    } else if same(name, "reindex") {
        Ok(Command::Reindex)
    } else if same(name, "bench") || same(name, "benchmark") {
        Ok(Command::Bench)
    } else if same(name, "stats") {
        Ok(Command::Stats)
    } else if same(name, "find") || same(name, "def") || same(name, "definitions") {
        Ok(Command::Find)
    } else if same(name, "search") {
        Ok(Command::Search)
    } else if same(name, "refs") || same(name, "references") {
        Ok(Command::Refs)
    } else if same(name, "callers") {
        Ok(Command::Callers)
    } else if same(name, "callees") {
        Ok(Command::Callees)
    } else if same(name, "hierarchy") {
        Ok(Command::Hierarchy)
    } else if same(name, "context") || same(name, "snippet") {
        Ok(Command::Context)
    } else if same(name, "expand") {
        Ok(Command::Expand)
    } else if same(name, "sql") || same(name, "query") {
        Ok(Command::Sql)
    } else {
        let start = joined("unknown command '", name);
        Err(joined(start.as_str(), "'"))
    }
}

/// Whether the arguments of the program ask for help.
pub open spec fn asks_for_help(args: Seq<Seq<char>>) -> bool {
    args.len() == 0 || args[0] == "-h"@ || args[0] == "--help"@ || args[0] == "help"@
}

/// Whether the arguments of the program ask for help.
pub fn wants_help(args: &Vec<String>) -> (r: bool)
    ensures
        r == asks_for_help(text::views(args@)),
{
    if args.len() == 0 {
        return true;
    }
    let first = args[0].as_str();
    same(first, "-h") || same(first, "--help") || same(first, "help")
}

/// The settings of an indexing run that arguments ask for, or what is wrong with them.
pub open spec fn run_settings(a: ArgsView, command: Seq<char>) -> Result<IndexerView, Seq<char>> {
    let roots = args::named_roots(a);
    if roots.len() == 0 {
        Err(command + " requires at least one --root PATH or positional PATH"@)
    } else {
        match args::language_of(a.value_or("language"@, "lang"@)) {
            Err(e) => Err(e),
            Ok(language) => match a.reference_mode() {
                Err(e) => Err(e),
                Ok(reference_mode) => Ok(
                    IndexerView {
                        paths: roots,
                        language,
                        follow_symlinks: a.is_set("follow-symlinks"@),
                        threads: match a.number(a.value("threads"@)) {
                            Some(n) => if n > 0 {
                                Some(n as usize)
                            } else {
                                None
                            },
                            None => None,
                        },
                        reference_mode,
                        include_reference_context: a.is_set("reference-context"@),
                    },
                ),
            },
        }
    }
}

/// The indexer that arguments ask for.
pub fn indexer_from_args(args: &ParsedArgs, command: &str) -> (r: Result<Indexer, String>)
    ensures
        args::shows(r, run_settings(args@, command@)),
{
    let roots = match roots_from_args(args, command) {
        Ok(v) => v,
        Err(e) => {
            return Err(e);
        },
    };
    let language = match parse_language(args.value_or("language", "lang")) {
        Ok(l) => l,
        Err(e) => {
            return Err(e);
        },
    };
    let reference_mode = match args.reference_mode() {
        Ok(m) => m,
        Err(e) => {
            return Err(e);
        },
    };
    let mut builder = Indexer::builder().language(language).follow_symlinks(
        args.bool_flag("follow-symlinks"),
    ).reference_mode(reference_mode).reference_context(args.bool_flag("reference-context"));
    if let Some(threads) = args.threads() {
        builder = builder.threads(threads);
    }
    let ghost settings = builder@;
    let ghost all = text::views(roots@);
    let mut i: usize = 0;
    assert(all.take(0) =~= Seq::empty());
    while i < roots.len()
        invariant
            all == text::views(roots@),
            i <= roots@.len(),
            builder@ == (IndexerView { paths: all.take(i as int), ..settings }),
        decreases roots@.len() - i,
    {
        builder = builder.add_directory(roots[i].as_str());
        i = i + 1;
        assert(all.take(i as int) =~= all.take(i - 1).push(all[i - 1]));
    }
    assert(all.take(i as int) =~= all);
    Ok(builder.build())
}

/// Where a benchmark saves: only where a database is named or saving is asked for, and not where
/// it is ruled out.
pub open spec fn benchmark_db(a: ArgsView) -> Option<Seq<char>> {
    if !a.is_set("no-save"@) && (a.value("db"@) is Some || a.is_set("save"@)) {
        Some(a.db())
    } else {
        None
    }
}

/// The benchmark that arguments ask for.
pub fn benchmark_from_args(args: &ParsedArgs) -> (r: Result<BenchmarkConfig, String>)
    ensures
        match (r, run_settings(args@, "benchmark"@)) {
            (Ok(c), Ok(s)) => {
                &&& text::views(c.roots@) == s.paths
                &&& c.language == s.language
                &&& c.follow_symlinks == s.follow_symlinks
                &&& c.threads == s.threads
                &&& c.reference_mode == s.reference_mode
                &&& c.include_reference_context == s.include_reference_context
                &&& text::view_opt(c.db_path) == benchmark_db(args@)
            },
            (Err(e), Err(m)) => e@ == m,
            _ => false,
        },
{
    let indexer = match indexer_from_args(args, "benchmark") {
        Ok(x) => x,
        Err(e) => {
            return Err(e);
        },
    };
    let saves = !args.bool_flag("no-save") && (args.value("db").is_some() || args.bool_flag(
        "save",
    ));
    let db_path = if saves {
        Some(args.db_path().to_owned())
    } else {
        None
    };
    Ok(
        BenchmarkConfig {
            roots: indexer.paths,
            language: indexer.language,
            follow_symlinks: indexer.follow_symlinks,
            threads: indexer.threads,
            reference_mode: indexer.reference_mode,
            include_reference_context: indexer.include_reference_context,
            db_path,
        },
    )
}

/// The place that `context` is asked for: a file and a line, or none where a symbol is asked for.
pub open spec fn context_target(a: ArgsView) -> Result<Option<(Seq<char>, usize)>, Seq<char>> {
    match a.value("file"@) {
        Some(file) => match a.value("line"@) {
            Some(line) => match text::number_upto(line, usize::MAX as int) {
                Some(n) => Ok(Some((file, n as usize))),
                None => Err("--line must be a positive integer"@),
            },
            None => Err("missing required --line"@),
        },
        None => Ok(None),
    }
}

/// The place that `context` is asked for.
pub fn parse_context_target(args: &ParsedArgs) -> (r: Result<Option<(String, usize)>, String>)
    ensures
        match (r, context_target(args@)) {
            (Ok(Some((file, line))), Ok(Some((f, l)))) => file@ == f && line == l,
            (Ok(None), Ok(None)) => true,
            (Err(a), Err(b)) => a@ == b,
            _ => false,
        },
{
    let file = match args.value("file") {
        Some(f) => f,
        None => {
            return Ok(None);
        },
    };
    proof {
        reveal_strlit("missing required --");
        reveal_strlit("line");
        reveal_strlit("missing required --line");
        assert("missing required --"@ + "line"@ =~= "missing required --line"@);
    }
    match args.required_value("line") {
        Ok(line) => match usize_of(Some(line)) {
            Some(n) => Ok(Some((file.to_owned(), n))),
            None => Err("--line must be a positive integer".to_owned()),
        },
        Err(e) => Err(e),
    }
}

/// How far `expand` walks: one step where no number is given, and never less.
pub open spec fn walk_depth(a: ArgsView) -> int {
    match a.number(a.value("depth"@)) {
        Some(n) => if n < 1 {
            1
        } else {
            n
        },
        None => 1,
    }
}

/// Which way `expand` walks.
pub open spec fn walk_direction(a: ArgsView) -> Seq<char> {
    match a.value("direction"@) {
        Some(d) => d,
        None => "both"@,
    }
}

/// How far `expand` walks.
pub fn expand_depth(args: &ParsedArgs) -> (r: usize)
    ensures
        r == walk_depth(args@),
{
    match usize_of(args.value("depth")) {
        Some(n) => if n < 1 {
            1
        } else {
            n
        },
        None => 1,
    }
}

/// Which way `expand` walks.
pub fn expand_direction(args: &ParsedArgs) -> (r: &str)
    ensures
        r@ == walk_direction(args@),
{
    match args.value("direction") {
        Some(d) => d,
        None => "both",
    }
}

/// How many calls `expand` lists: at least one.
pub fn expand_limit(args: &ParsedArgs) -> (r: usize)
    ensures
        r == (if args@.limit() < 1 {
            1
        } else {
            args@.limit()
        }),
{
    let n = args.limit();
    if n < 1 {
        1
    } else {
        n
    }
}

/// The length of the first run of characters that are not white space.
pub open spec fn word_len(s: Seq<char>) -> int
    decreases s.len(),
{
    if s.len() == 0 || text::is_white_space(s[0]) {
        0
    } else {
        1 + word_len(s.skip(1))
    }
}

/// The first word of a text.
pub open spec fn first_word(s: Seq<char>) -> Seq<char> {
    let t = text::trimmed_start(s);
    t.take(word_len(t))
}

/// The first word of a text.
fn first_word_of(s: &str) -> (r: String)
    ensures
        r@ == first_word(s@),
{
    let chars = chars_of(s);
    let mut from: usize = 0;
    assert(s@.skip(0) =~= s@);
    while from < chars.len() && chars[from].is_whitespace()
        invariant
            chars@ == s@,
            from <= chars@.len(),
            text::trimmed_start(s@) == text::trimmed_start(s@.skip(from as int)),
        decreases chars@.len() - from,
    {
        assert(s@.skip(from as int).skip(1) =~= s@.skip(from + 1));
        from = from + 1;
    }
    let ghost t = s@.skip(from as int);
    assert(text::trimmed_start(s@) == t);
    let mut to: usize = from;
    assert(t.skip(0) =~= t);
    while to < chars.len() && !chars[to].is_whitespace()
        invariant
            chars@ == s@,
            t == s@.skip(from as int),
            from <= to <= chars@.len(),
            word_len(t) == (to - from) + word_len(t.skip(to - from)),
        decreases chars@.len() - to,
    {
        assert(t.skip(to - from).skip(1) =~= t.skip(to - from + 1));
        to = to + 1;
    }
    assert(chars@.subrange(from as int, to as int) =~= t.take(to - from));
    string_of(&chars, from, to)
}

/// The query that `sql` runs, or why it does not.
pub open spec fn sql_query(a: ArgsView) -> Result<Seq<char>, Seq<char>> {
    let sql = match a.value_or("sql"@, "query"@) {
        Some(v) => v,
        None => text::join(a.positionals, " "@),
    };
    let word = text::ascii_lowered(first_word(sql));
    if text::trimmed(sql).len() == 0 {
        Err("sql requires --sql QUERY or a positional SQL string"@)
    } else if word == "select"@ || word == "with"@ || word == "pragma"@ {
        Ok(sql)
    } else {
        Err("sql command is read-only; query must start with SELECT, WITH, or PRAGMA"@)
    }
}

/// The query that `sql` runs.
pub fn sql_from_args(args: &ParsedArgs) -> (r: Result<String, String>)
    ensures
        args::shows(r, sql_query(args@)),
{
    let sql = match args.value_or("sql", "query") {
        Some(v) => v.to_owned(),
        None => join_texts(&args.positionals, " "),
    };
    let bare = trim(sql.as_str());
    if bare.as_str().is_empty() {
        return Err("sql requires --sql QUERY or a positional SQL string".to_owned());
    }
    let word = to_ascii_lower(first_word_of(sql.as_str()).as_str());
    if same(word.as_str(), "select") || same(word.as_str(), "with") || same(
        word.as_str(),
        "pragma",
    ) {
        Ok(sql)
    } else {
        Err(
            "sql command is read-only; query must start with SELECT, WITH, or PRAGMA".to_owned(),
        )
    }
}

/// Whether and from which configuration an index is brought up to date before a query.
#[derive(Debug)]
pub enum ReindexChoice {
    /// It is not, for a reason.
    Skip { reason: &'static str },
    /// It is, with a configuration that stems from a source. One that had to be inferred is
    /// stored afterwards.
    Run { source: &'static str, config: IndexConfig, store: bool },
}

/// Whether and from which configuration an index is brought up to date.
pub enum ReindexChoiceView {
    Skip { reason: Seq<char> },
    Run { source: Seq<char>, config: IndexConfigView, store: bool },
}

impl View for ReindexChoice {
    type V = ReindexChoiceView;

    open spec fn view(&self) -> ReindexChoiceView {
        match self {
            ReindexChoice::Skip { reason } => ReindexChoiceView::Skip { reason: reason@ },
            ReindexChoice::Run { source, config, store } => ReindexChoiceView::Run {
                source: source@,
                config: config@,
                store: *store,
            },
        }
    }
}

/// The configuration that arguments stand for where nothing is stored.
pub open spec fn config_of(s: IndexerView) -> IndexConfigView {
    IndexConfigView {
        roots: s.paths,
        language: s.language.name(),
        follow_symlinks: s.follow_symlinks,
        reference_mode: reference_mode_text(s.reference_mode),
        include_reference_context: s.include_reference_context,
    }
}

/// The name of a reference mode.
pub open spec fn reference_mode_text(mode: ReferenceMode) -> Seq<char> {
    match mode {
        ReferenceMode::Off => "none"@,
        ReferenceMode::Calls => "calls"@,
        ReferenceMode::All => "all"@,
    }
}

/// The name of a reference mode.
pub fn reference_mode_name(mode: ReferenceMode) -> (r: &'static str)
    ensures
        r@ == reference_mode_text(mode),
{
    match mode {
        ReferenceMode::Off => "none",
        ReferenceMode::Calls => "calls",
        ReferenceMode::All => "all",
    }
}

/// The name of a reference mode stands for it.
pub proof fn law_reference_mode_names(mode: ReferenceMode)
    ensures
        args::reference_mode_of(reference_mode_text(mode)) == Ok::<_, Seq<char>>(mode),
{
    reveal_strlit("none");
    reveal_strlit("off");
    reveal_strlit("false");
    reveal_strlit("0");
    reveal_strlit("calls");
    reveal_strlit("call");
    reveal_strlit("call-sites");
    reveal_strlit("all");
    assert("calls"@.len() == 5 && "none"@.len() == 4 && "all"@.len() == 3);
    assert("false"@[0] == 'f' && "calls"@[0] == 'c');
    assert("off"@[0] == 'o' && "all"@[0] == 'a');
}

/// The configuration of an indexer.
pub fn config_of_indexer(x: &Indexer) -> (r: IndexConfig)
    ensures
        r@ == config_of(x@),
{
    IndexConfig {
        roots: copy_texts(&x.paths),
        language: crate::benchmark::language_name(x.language).to_owned(),
        follow_symlinks: x.follow_symlinks,
        reference_mode: reference_mode_name(x.reference_mode).to_owned(),
        include_reference_context: x.include_reference_context,
    }
}

/// The settings that a configuration stands for, or what is wrong with its names.
pub open spec fn settings_of(c: IndexConfigView, threads: Option<usize>) -> Result<
    IndexerView,
    Seq<char>,
> {
    match args::language_of(Some(c.language)) {
        Err(e) => Err(e),
        Ok(language) => match args::reference_mode_of(c.reference_mode) {
            Err(e) => Err(e),
            Ok(reference_mode) => Ok(
                IndexerView {
                    paths: c.roots,
                    language,
                    follow_symlinks: c.follow_symlinks,
                    threads: if threads == Some(0usize) {
                        None
                    } else {
                        threads
                    },
                    reference_mode,
                    include_reference_context: c.include_reference_context,
                },
            ),
        },
    }
}

/// The indexer that a configuration stands for.
pub fn indexer_of_config(config: &IndexConfig, threads: Option<usize>) -> (r: Result<
    Indexer,
    String,
>)
    ensures
        args::shows(r, settings_of(config@, threads)),
{
    let language = match parse_language(Some(config.language.as_str())) {
        Ok(l) => l,
        Err(e) => {
            return Err(e);
        },
    };
    let reference_mode = match parse_reference_mode(config.reference_mode.as_str()) {
        Ok(m) => m,
        Err(e) => {
            return Err(e);
        },
    };
    Ok(
        Indexer {
            paths: copy_texts(&config.roots),
            language,
            follow_symlinks: config.follow_symlinks,
            threads: match threads {
                Some(n) => if n == 0 {
                    None
                } else {
                    Some(n)
                },
                None => None,
            },
            reference_mode,
            include_reference_context: config.include_reference_context,
        },
    )
}

/// The configuration of an indexer stands for that indexer.
pub proof fn law_configuration_names_its_indexer(s: IndexerView)
    requires
        s.threads != Some(0usize),
    ensures
        settings_of(config_of(s), s.threads) == Ok::<_, Seq<char>>(s),
{
    law_reference_mode_names(s.reference_mode);
    reveal_strlit("c");
    reveal_strlit("cpp");
    assert(text::ascii_lowered("c"@) =~= "c"@);
    assert(text::ascii_lowered("cpp"@) =~= "cpp"@);
    assert("cpp"@.len() == 3 && "c"@.len() == 1);
}

/// Copies texts.
fn copy_texts(v: &Vec<String>) -> (r: Vec<String>)
    ensures
        text::views(r@) == text::views(v@),
{
    let mut r: Vec<String> = Vec::new();
    let mut i: usize = 0;
    while i < v.len()
        invariant
            i <= v@.len(),
            r@.len() == i,
            forall|k: int| 0 <= k < i ==> (#[trigger] r@[k])@ == v@[k]@,
        decreases v@.len() - i,
    {
        r.push(v[i].clone());
        i = i + 1;
    }
    assert(text::views(r@) =~= text::views(v@));
    r
}

/// Whether and from which configuration an index is brought up to date before a query: not
/// where that is switched off; else with the stored configuration, or the one inferred from the
/// stored files, which is then to be stored. Roots that the arguments name take the place of
/// those configured, for this once.
pub open spec fn reindex_choice(
    a: ArgsView,
    saved: Option<IndexConfigView>,
    inferred: Option<IndexConfigView>,
) -> ReindexChoiceView {
    let roots = args::all_values(a.flags, "root"@);
    let known = match saved {
        Some(c) => Some(c),
        None => inferred,
    };
    if a.is_set("no-reindex"@) {
        ReindexChoiceView::Skip { reason: "disabled"@ }
    } else if roots.len() > 0 {
        let base = match known {
            Some(c) => c,
            None => IndexConfigView {
                roots,
                language: "cpp"@,
                follow_symlinks: false,
                reference_mode: "calls"@,
                include_reference_context: false,
            },
        };
        ReindexChoiceView::Run {
            source: "arguments"@,
            config: IndexConfigView { roots, ..base },
            store: false,
        }
    } else {
        match (saved, inferred) {
            (Some(c), _) => ReindexChoiceView::Run {
                source: "saved_config"@,
                config: c,
                store: false,
            },
            (None, Some(c)) => ReindexChoiceView::Run {
                source: "inferred_config"@,
                config: c,
                store: true,
            },
            (None, None) => ReindexChoiceView::Skip { reason: "no_saved_roots"@ },
        }
    }
}

/// Whether and from which configuration an index is brought up to date before a query.
pub fn choose_reindex(
    args: &ParsedArgs,
    saved: Option<IndexConfig>,
    inferred: Option<IndexConfig>,
) -> (r: ReindexChoice)
    ensures
        r@ == reindex_choice(args@, text::view_opt(saved), text::view_opt(inferred)),
{
    if args.bool_flag("no-reindex") {
        return ReindexChoice::Skip { reason: "disabled" };
    }
    let roots = args.values("root");
    assert(text::views(roots@).len() == roots@.len());
    let named = roots.len() > 0;
    let (source, store, known) = match (saved, inferred) {
        (Some(c), _) => ("saved_config", false, Some(c)),
        (None, Some(c)) => ("inferred_config", true, Some(c)),
        (None, None) => ("arguments", false, None),
    };
    match known {
        Some(c) => if named {
            ReindexChoice::Run {
                source: "arguments",
                config: IndexConfig {
                    roots,
                    language: c.language,
                    follow_symlinks: c.follow_symlinks,
                    reference_mode: c.reference_mode,
                    include_reference_context: c.include_reference_context,
                },
                store: false,
            }
        } else {
            ReindexChoice::Run { source, config: c, store }
        },
        None => if named {
            ReindexChoice::Run {
                source,
                config: IndexConfig {
                    roots,
                    language: "cpp".to_owned(),
                    follow_symlinks: false,
                    reference_mode: "calls".to_owned(),
                    include_reference_context: false,
                },
                store,
            }
        } else {
            ReindexChoice::Skip { reason: "no_saved_roots" }
        },
    }
}

} // verus!
