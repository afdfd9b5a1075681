//! What holds of the commands: their names, what they are asked, and whether an index is brought up
//! to date first.
use crate::args::{ArgsView, all_values};
use crate::args;
use crate::cli::{Command, ReindexChoiceView};
use crate::cli;
use crate::config::IndexConfigView;
use crate::config;
use crate::language::{Language, ReferenceMode};
use crate::paths;
use crate::rows::FileRowView;
use crate::text;
use vstd::prelude::*;

verus! {

/// The names of a command.
pub open spec fn names_of(c: Command) -> Seq<Seq<char>> {
    match c {
        Command::Index => seq!["index"@],
        Command::Reindex => seq!["reindex"@],
        Command::Bench => seq!["bench"@, "benchmark"@],
        Command::Stats => seq!["stats"@],
        Command::Find => seq!["find"@, "def"@, "definitions"@],
        Command::Search => seq!["search"@],
        Command::Refs => seq!["refs"@, "references"@],
        Command::Callers => seq!["callers"@],
        Command::Callees => seq!["callees"@],
        Command::Hierarchy => seq!["hierarchy"@],
        Command::Context => seq!["context"@, "snippet"@],
        Command::Expand => seq!["expand"@],
        Command::Sql => seq!["sql"@, "query"@],
    }
}

/// A command goes by its names, and by no other; a name that no command has is refused.
pub proof fn law_commands_go_by_their_names(name: Seq<char>, c: Command)
    ensures
        cli::command_of(name) == Result::<Command, Seq<char>>::Ok(c) <==> names_of(c).contains(
            name,
        ),
{
    reveal_strlit("index");
    reveal_strlit("reindex");
    reveal_strlit("bench");
    reveal_strlit("benchmark");
    reveal_strlit("stats");
    reveal_strlit("find");
    reveal_strlit("def");
    reveal_strlit("definitions");
    reveal_strlit("search");
    reveal_strlit("refs");
    reveal_strlit("references");
    reveal_strlit("callers");
    reveal_strlit("callees");
    reveal_strlit("hierarchy");
    reveal_strlit("context");
    reveal_strlit("snippet");
    reveal_strlit("expand");
    reveal_strlit("sql");
    reveal_strlit("query");
    assert("index"@.len() == 5);
    assert("reindex"@.len() == 7);
    assert("bench"@.len() == 5);
    assert("benchmark"@.len() == 9);
    assert("stats"@.len() == 5);
    assert("find"@.len() == 4);
    assert("def"@.len() == 3);
    assert("definitions"@.len() == 11);
    assert("search"@.len() == 6);
    assert("refs"@.len() == 4);
    assert("references"@.len() == 10);
    assert("callers"@.len() == 7);
    assert("callees"@.len() == 7);
    assert("hierarchy"@.len() == 9);
    assert("context"@.len() == 7);
    assert("snippet"@.len() == 7);
    assert("expand"@.len() == 6);
    assert("sql"@.len() == 3);
    assert("query"@.len() == 5);
    assert("index"@[0] == 'i');
    assert("bench"@[0] == 'b');
    assert("stats"@[0] == 's');
    assert("query"@[0] == 'q');
    assert("reindex"@[0] == 'r');
    assert("callers"@[0] == 'c');
    assert("callees"@[0] == 'c');
    assert("context"@[0] == 'c');
    assert("snippet"@[0] == 's');
    assert("benchmark"@[0] == 'b');
    assert("hierarchy"@[0] == 'h');
    assert("find"@[0] == 'f');
    assert("refs"@[0] == 'r');
    assert("def"@[0] == 'd');
    assert("sql"@[0] == 's');
    assert("search"@[0] == 's');
    assert("expand"@[0] == 'e');
    assert("callers"@[5] == 'r');
    assert("callees"@[5] == 'e');
    assert("callers"@[1] == 'a');
    assert("context"@[1] == 'o');
    assert("callees"@[1] == 'a');
    let all = names_of(c);
    assert(all[0] == names_of(c)[0]);
    if all.len() > 1 {
        assert(all[1] == names_of(c)[1]);
    }
    if all.len() > 2 {
        assert(all[2] == names_of(c)[2]);
    }
    if cli::command_of(name) == Result::<Command, Seq<char>>::Ok(c) {
        assert(name == all[0] || all.len() > 1 && name == all[1] || all.len() > 2 && name
            == all[2]);
    }
    if all.contains(name) {
        let i = choose|i: int| 0 <= i < all.len() && all[i] == name;
        assert(i == 0 || i == 1 || i == 2);
        assert(all[i] == name);
    }
}

/// Letters are lowered one by one, and nothing else is changed.
pub proof fn law_letters_are_lowered_one_by_one(s: Seq<char>, i: int)
    requires
        0 <= i < s.len(),
    ensures
        text::ascii_lowered(s).len() == s.len(),
        'A' <= s[i] <= 'Z' ==> text::ascii_lowered(s)[i] as u32 == s[i] as u32 + 32,
        !('A' <= s[i] <= 'Z') ==> text::ascii_lowered(s)[i] == s[i],
{
}

/// Whether a text is white space alone.
pub open spec fn is_blank(s: Seq<char>) -> bool {
    forall|i: int| 0 <= i < s.len() ==> text::is_white_space(#[trigger] s[i])
}

/// White space before a text is taken off.
proof fn lemma_trimmed_start(blank: Seq<char>, rest: Seq<char>)
    requires
        is_blank(blank),
        rest.len() > 0 ==> !text::is_white_space(rest[0]),
    ensures
        text::trimmed_start(blank + rest) == rest,
    decreases blank.len(),
{
    let s = blank + rest;
    if blank.len() == 0 {
        assert(s =~= rest);
    } else {
        assert(text::is_white_space(blank[0]));
        assert(s[0] == blank[0]);
        assert(s.skip(1) =~= blank.skip(1) + rest);
        assert forall|i: int| 0 <= i < blank.skip(1).len() implies text::is_white_space(
            #[trigger] blank.skip(1)[i],
        ) by {
            assert(blank.skip(1)[i] == blank[i + 1]);
        }
        lemma_trimmed_start(blank.skip(1), rest);
    }
}

/// White space behind a text is taken off.
proof fn lemma_trimmed_end(rest: Seq<char>, blank: Seq<char>)
    requires
        is_blank(blank),
        rest.len() > 0 ==> !text::is_white_space(rest.last()),
    ensures
        text::trimmed_end(rest + blank) == rest,
    decreases blank.len(),
{
    let s = rest + blank;
    if blank.len() == 0 {
        assert(s =~= rest);
    } else {
        assert(text::is_white_space(blank[blank.len() - 1]));
        assert(s.last() == blank.last());
        assert(s.drop_last() =~= rest + blank.drop_last());
        assert forall|i: int| 0 <= i < blank.drop_last().len() implies text::is_white_space(
            #[trigger] blank.drop_last()[i],
        ) by {
            assert(blank.drop_last()[i] == blank[i]);
        }
        lemma_trimmed_end(rest, blank.drop_last());
    }
}

/// Trimming takes off the white space around a text, and nothing of the text.
pub proof fn law_trimming_takes_off_white_space_alone(
    before: Seq<char>,
    core: Seq<char>,
    behind: Seq<char>,
)
    requires
        is_blank(before),
        is_blank(behind),
        core.len() > 0 ==> !text::is_white_space(core[0]) && !text::is_white_space(core.last()),
    ensures
        text::trimmed(before + core + behind) == core,
{
    if core.len() > 0 {
        assert(before + core + behind =~= before + (core + behind));
        assert((core + behind)[0] == core[0]);
        lemma_trimmed_start(before, core + behind);
        lemma_trimmed_end(core, behind);
    } else {
        let all = before + core + behind;
        assert forall|i: int| 0 <= i < all.len() implies text::is_white_space(
            #[trigger] all[i],
        ) by {
            if i < before.len() {
                assert(all[i] == before[i]);
            } else {
                assert(all[i] == behind[i - before.len()]);
            }
        }
        assert(all =~= all + core);
        lemma_trimmed_start(all, core);
    }
}

/// The first word of a text ends where white space follows.
proof fn lemma_word(word: Seq<char>, rest: Seq<char>)
    requires
        forall|i: int| 0 <= i < word.len() ==> !text::is_white_space(#[trigger] word[i]),
        rest.len() > 0 ==> text::is_white_space(rest[0]),
    ensures
        cli::word_len(word + rest) == word.len(),
    decreases word.len(),
{
    let s = word + rest;
    if word.len() == 0 {
        assert(s =~= rest);
    } else {
        assert(s[0] == word[0]);
        assert(!text::is_white_space(word[0]));
        assert(s.skip(1) =~= word.skip(1) + rest);
        assert forall|i: int| 0 <= i < word.skip(1).len() implies !text::is_white_space(
            #[trigger] word.skip(1)[i],
        ) by {
            assert(word.skip(1)[i] == word[i + 1]);
        }
        lemma_word(word.skip(1), rest);
    }
}

/// A query is run as it is given where its first word is `select`, `with` or `pragma`, in whatever
/// case, and is refused otherwise.
pub proof fn law_queries_only_read(
    a: ArgsView,
    blank: Seq<char>,
    word: Seq<char>,
    rest: Seq<char>,
)
    requires
        a.value_or("sql"@, "query"@) == Some(blank + word + rest),
        is_blank(blank),
        word.len() > 0,
        forall|i: int| 0 <= i < word.len() ==> !text::is_white_space(#[trigger] word[i]),
        rest.len() > 0 ==> text::is_white_space(rest[0]),
    ensures
        seq!["select"@, "with"@, "pragma"@].contains(text::ascii_lowered(word)) ==> cli::sql_query(
            a,
        ) == Result::<Seq<char>, Seq<char>>::Ok(blank + word + rest),
        !seq!["select"@, "with"@, "pragma"@].contains(text::ascii_lowered(word)) ==> cli::sql_query(
            a,
        ) is Err,
{
    let sql = blank + word + rest;
    let tail = word + rest;
    assert(sql =~= blank + tail);
    assert(!text::is_white_space(word[0]));
    assert(tail[0] == word[0]);
    lemma_trimmed_start(blank, tail);
    lemma_word(word, rest);
    assert(tail.take(word.len() as int) =~= word);
    lemma_not_blank(tail);
    let all = seq!["select"@, "with"@, "pragma"@];
    assert(all[0] == "select"@ && all[1] == "with"@ && all[2] == "pragma"@);
    let low = text::ascii_lowered(word);
    if all.contains(low) {
        let i = choose|i: int| 0 <= i < all.len() && all[i] == low;
        assert(all[i] == low);
    }
}

/// What begins with something other than white space is not trimmed away.
proof fn lemma_not_blank(s: Seq<char>)
    requires
        s.len() > 0,
        !text::is_white_space(s[0]),
    ensures
        text::trimmed_end(s).len() > 0,
    decreases s.len(),
{
    if text::is_white_space(s.last()) {
        assert(s.len() > 1);
        assert(s.drop_last()[0] == s[0]);
        lemma_not_blank(s.drop_last());
    }
}

/// A blank query is refused.
pub proof fn law_blank_queries_are_refused(a: ArgsView, sql: Seq<char>)
    requires
        a.value_or("sql"@, "query"@) == Some(sql),
        is_blank(sql),
    ensures
        cli::sql_query(a) is Err,
{
    law_trimming_takes_off_white_space_alone(sql, Seq::empty(), Seq::empty());
    assert(sql + Seq::<char>::empty() + Seq::<char>::empty() =~= sql);
}

/// An index is not brought up to date where that is switched off. Else roots that are named take the
/// place of those known, for this once; without them the stored configuration is taken as it is, and
/// one that was inferred is stored.
pub proof fn law_what_is_brought_up_to_date(
    a: ArgsView,
    saved: Option<IndexConfigView>,
    inferred: Option<IndexConfigView>,
)
    ensures
        a.is_set("no-reindex"@) ==> cli::reindex_choice(a, saved, inferred) is Skip,
        !a.is_set("no-reindex"@) && all_values(a.flags, "root"@).len() > 0 ==> runs_on(
            cli::reindex_choice(a, saved, inferred),
            all_values(a.flags, "root"@),
            saved,
            inferred,
        ),
        !a.is_set("no-reindex"@) && all_values(a.flags, "root"@).len() == 0 ==> match (
            saved,
            inferred,
        ) {
            (Some(c), _) => cli::reindex_choice(a, saved, inferred) matches ReindexChoiceView::Run {
                config,
                store,
                ..
            } && config == c && !store,
            (None, Some(c)) => cli::reindex_choice(
                a,
                saved,
                inferred,
            ) matches ReindexChoiceView::Run { config, store, .. } && config == c && store,
            (None, None) => cli::reindex_choice(a, saved, inferred) is Skip,
        },
{
}

/// Whether an index is brought up to date from some roots, and else as it is known to be built.
pub open spec fn runs_on(
    choice: ReindexChoiceView,
    roots: Seq<Seq<char>>,
    saved: Option<IndexConfigView>,
    inferred: Option<IndexConfigView>,
) -> bool {
    choice matches ReindexChoiceView::Run { config, store, .. } && !store && config.roots == roots
        && match (saved, inferred) {
        (Some(c), _) => config.language == c.language && config.follow_symlinks
            == c.follow_symlinks && config.reference_mode == c.reference_mode
            && config.include_reference_context == c.include_reference_context,
        (None, Some(c)) => config.language == c.language && config.follow_symlinks
            == c.follow_symlinks && config.reference_mode == c.reference_mode
            && config.include_reference_context == c.include_reference_context,
        (None, None) => config.language == "cpp"@ && !config.follow_symlinks
            && config.reference_mode == "calls"@ && !config.include_reference_context,
    }
}

/// A language goes by its names, in whatever case, and C++ is taken where none is named.
pub proof fn law_languages_go_by_their_names(name: Seq<char>)
    ensures
        args::language_of(None) == Result::<Language, Seq<char>>::Ok(Language::Cpp),
        args::language_of(Some(name)) == Result::<Language, Seq<char>>::Ok(Language::C)
            <==> text::ascii_lowered(name) == seq!['c'],
        args::language_of(Some(name)) == Result::<Language, Seq<char>>::Ok(Language::Cpp)
            <==> text::ascii_lowered(name) == seq!['c', 'p', 'p'] || text::ascii_lowered(name)
            == seq!['c', '+', '+'] || text::ascii_lowered(name) == seq!['c', 'c'],
{
    reveal_strlit("c");
    reveal_strlit("cpp");
    reveal_strlit("c++");
    reveal_strlit("cc");
    assert("c"@ =~= seq!['c']);
    assert("cpp"@ =~= seq!['c', 'p', 'p']);
    assert("c++"@ =~= seq!['c', '+', '+']);
    assert("cc"@ =~= seq!['c', 'c']);
    assert(seq!['c'].len() == 1 && seq!['c', 'c'].len() == 2);
    assert(seq!['c', 'p', 'p'].len() == 3 && seq!['c', '+', '+'].len() == 3);
}

/// A symbol is the first argument that stands for itself, and else what is named as one.
pub proof fn law_symbols_are_named(a: ArgsView)
    ensures
        a.positionals.len() > 0 ==> a.symbol() == Some(a.positionals[0]),
        a.positionals.len() == 0 && a.value("name"@) is Some ==> a.symbol() == a.value("name"@),
        a.positionals.len() == 0 && a.value("name"@) is None ==> a.symbol() == a.value("symbol"@),
        a.value("db"@) matches Some(db) ==> a.db() == db,
        a.value("db"@) is None ==> a.db() == ".git/code-indexer/xrefs.sqlite3"@,
{
}

/// A walk goes at least one step, and as many as it is asked for; both ways where it is told none.
pub proof fn law_walks_go_as_far_as_asked(a: ArgsView, n: usize)
    ensures
        a.number(a.value("depth"@)) == Some(n as int) && n >= 1 ==> cli::walk_depth(a) == n,
        a.number(a.value("depth"@)) == Some(0int) ==> cli::walk_depth(a) == 1,
        a.number(a.value("depth"@)) is None ==> cli::walk_depth(a) == 1,
        a.value("direction"@) matches Some(d) ==> cli::walk_direction(a) == d,
        a.value("direction"@) is None ==> cli::walk_direction(a) == "both"@,
{
}

/// An indexing run is set as the arguments ask: all the roots that are named, the language, the
/// references and the switches; and workers only where more than none are asked for. Without a root
/// there is nothing to run.
pub proof fn law_runs_are_set_as_asked(a: ArgsView, command: Seq<char>)
    ensures
        args::named_roots(a).len() == 0 ==> cli::run_settings(a, command) is Err,
        cli::run_settings(a, command) is Ok <==> args::named_roots(a).len() > 0
            && args::language_of(a.value_or("language"@, "lang"@)) is Ok && a.reference_mode()
            is Ok,
        cli::run_settings(a, command) matches Ok(s) ==> {
            &&& s.paths == all_values(a.flags, "root"@) + all_values(a.flags, "path"@)
                + a.positionals
            &&& args::language_of(a.value_or("language"@, "lang"@)) == Result::<
                Language,
                Seq<char>,
            >::Ok(s.language)
            &&& a.reference_mode() == Result::<ReferenceMode, Seq<char>>::Ok(s.reference_mode)
            &&& s.follow_symlinks <==> a.is_set("follow-symlinks"@)
            &&& s.include_reference_context <==> a.is_set("reference-context"@)
            &&& s.threads matches Some(n) ==> n > 0 && a.number(a.value("threads"@)) == Some(
                n as int,
            )
            &&& s.threads is None ==> a.number(a.value("threads"@)) is None || a.number(
                a.value("threads"@),
            ) == Some(0int)
        },
{
    if let Some(v) = a.value("threads"@) {
        lemma_number_fits(v);
    }
}

/// A number that is read fits.
proof fn lemma_number_fits(s: Seq<char>)
    ensures
        text::number_upto(s, usize::MAX as int) matches Some(n) ==> 0 <= n <= usize::MAX,
{
    let digits = text::unsigned_digits(s);
    if text::digits_value(digits) is Some {
        text::lemma_digits_prefix(digits, digits.len() as int);
        assert(digits.take(digits.len() as int) =~= digits);
    }
}

/// Calls alone are referenced where nothing is said about references, and everything is where all of
/// them are asked for.
pub proof fn law_references_are_collected_as_asked(a: ArgsView)
    ensures
        a.is_set("all-references"@) ==> a.reference_mode() == Result::<
            ReferenceMode,
            Seq<char>,
        >::Ok(ReferenceMode::All),
        !a.is_set("all-references"@) && a.value("references"@) is None && a.value(
            "reference-mode"@,
        ) is None ==> a.reference_mode() == Result::<ReferenceMode, Seq<char>>::Ok(
            ReferenceMode::Calls,
        ),
        !a.is_set("all-references"@) && a.value("references"@) is Some ==> a.reference_mode()
            == args::reference_mode_of(a.value("references"@)->0),
{
}

/// A benchmark saves only where a database is named or saving is asked for, and never where it is
/// ruled out.
pub proof fn law_benchmarks_save_where_asked(a: ArgsView)
    ensures
        a.is_set("no-save"@) ==> cli::benchmark_db(a) is None,
        !a.is_set("no-save"@) && a.value("db"@) is Some ==> cli::benchmark_db(a) == a.value("db"@),
        !a.is_set("no-save"@) && a.value("db"@) is None && a.is_set("save"@) ==> cli::benchmark_db(a)
            == Some(a.db()),
        a.value("db"@) is None && !a.is_set("save"@) ==> cli::benchmark_db(a) is None,
{
}

/// The root that is inferred is the one that the files have in common, unless that is the root of
/// the file system.
pub proof fn law_inferred_roots_hold_the_files(files: Seq<FileRowView>, i: int)
    requires
        0 <= i < files.len(),
    ensures
        config::inferred_root(files) is None <==> paths::is_root(
            config::common_root(config::file_paths(files))->0,
        ),
        config::inferred_root(files) matches Some(root) ==> Some(root) == config::common_root(
            config::file_paths(files),
        ),
        config::file_paths(files)[i] == files[i].path,
        config::languages(files)[i] == files[i].language,
{
}

} // verus!
