//! What the commands answer.
use crate::benchmark::{BenchmarkReport, SaveMetrics};
use crate::expand::ReachedCall;
use crate::hits::{
    call_hits_json, definition_contexts_json, definition_hits_with_confidence, files_json,
    index_summary, query_hits_json, ref_hits,
};
use crate::hits;
use crate::index::{ClassHierarchy, Index, IndexView};
use crate::indexer::IndexMetrics;
use crate::json::{Fields, Json, JsonView};
use crate::json;
use crate::language::{Language, ReferenceMode};
use crate::snippet::{snippet_json, Snippet, SnippetView};
use crate::snippet;
use crate::stream::StreamedDbWriteMetrics;
use crate::text;
use crate::types::{CallEdgeView, Definition, DefinitionView, Reference};
use vstd::prelude::*;

verus! {

/// The counts and timings of an indexing pass as a value.
pub open spec fn metrics_value(m: IndexMetrics) -> JsonView {
    JsonView::Object(
        seq![
            ("threads"@, json::count_value(m.threads as nat)),
            ("files_discovered"@, json::count_value(m.files_discovered as nat)),
            ("files_indexed"@, json::count_value(m.files_indexed as nat)),
            ("bytes_read"@, json::count_value(m.bytes_read as nat)),
            ("lossy_decoded_files"@, json::count_value(m.lossy_decoded_files as nat)),
            ("definitions"@, json::count_value(m.definitions as nat)),
            ("references"@, json::count_value(m.references as nat)),
            ("calls"@, json::count_value(m.calls as nat)),
            ("inheritance_edges"@, json::count_value(m.inheritance_edges as nat)),
            ("discover_ms"@, json::count_value(m.discover_ms as nat)),
            ("parse_ms"@, json::count_value(m.parse_ms as nat)),
            ("build_ms"@, json::count_value(m.build_ms as nat)),
            ("total_ms"@, json::count_value(m.total_ms as nat)),
        ],
    )
}

/// The counts and timings of an indexing pass as a value.
pub fn metrics_json(m: &IndexMetrics) -> (r: Json)
    ensures
        r@ == metrics_value(*m),
{
    let r = Fields::new().with("threads", Json::count(m.threads)).with(
        "files_discovered",
        Json::count(m.files_discovered),
    ).with("files_indexed", Json::count(m.files_indexed)).with(
        "bytes_read",
        Json::long_count(m.bytes_read as u128),
    ).with("lossy_decoded_files", Json::count(m.lossy_decoded_files)).with(
        "definitions",
        Json::count(m.definitions),
    ).with("references", Json::count(m.references)).with("calls", Json::count(m.calls)).with(
        "inheritance_edges",
        Json::count(m.inheritance_edges),
    ).with("discover_ms", Json::long_count(m.discover_ms)).with(
        "parse_ms",
        Json::long_count(m.parse_ms),
    ).with("build_ms", Json::long_count(m.build_ms)).with(
        "total_ms",
        Json::long_count(m.total_ms),
    ).object();
    assert(r@->Object_0 =~= metrics_value(*m)->Object_0);
    r
}

/// The start of an answer: that it went well, to which command, and from which database.
pub open spec fn answer_head(command: Seq<char>, db: Seq<char>) -> Seq<(Seq<char>, JsonView)> {
    seq![
        ("ok"@, JsonView::Bool(true)),
        ("command"@, json::text_value(command)),
        ("db"@, json::text_value(db)),
    ]
}

/// The start of an answer.
fn head(command: &str, db: &str) -> (r: Fields)
    ensures
        r@ == answer_head(command@, db@),
{
    let r = Fields::new().with("ok", Json::Bool(true)).with("command", Json::text(command)).with(
        "db",
        Json::text(db),
    );
    assert(r@ =~= answer_head(command@, db@));
    r
}

/// What `index` answers.
pub open spec fn index_answer(
    db: Seq<char>,
    roots: Seq<Seq<char>>,
    language: Language,
    ix: IndexView,
    metrics: IndexMetrics,
    save_ms: u128,
) -> JsonView {
    JsonView::Object(
        answer_head("index"@, db) + seq![
            ("roots"@, JsonView::Array(roots.map_values(|s: Seq<char>| json::text_value(s)))),
            ("language"@, json::text_value(language.name())),
            ("summary"@, hits::summary_value(ix)),
            ("metrics"@, metrics_value(metrics)),
            ("save_ms"@, json::count_value(save_ms as nat)),
            ("total_ms"@, json::count_value((metrics.total_ms + save_ms) as nat)),
        ],
    )
}

/// What `index` answers.
pub fn index_response(
    db: &str,
    roots: &Vec<String>,
    language: Language,
    index: &Index,
    metrics: &IndexMetrics,
    save_ms: u128,
) -> (r: Json)
    requires
        metrics.total_ms + save_ms <= u128::MAX,
    ensures
        r@ == index_answer(db@, text::views(roots@), language, index@, *metrics, save_ms),
{
    let r = head("index", db).with("roots", Json::texts(roots)).with(
        "language",
        Json::text(crate::benchmark::language_name(language)),
    ).with("summary", index_summary(index)).with("metrics", metrics_json(metrics)).with(
        "save_ms",
        Json::long_count(save_ms),
    ).with("total_ms", Json::long_count(metrics.total_ms + save_ms)).object();
    assert(r@->Object_0 =~= index_answer(
        db@,
        text::views(roots@),
        language,
        index@,
        *metrics,
        save_ms,
    )->Object_0);
    r
}

/// What was done to bring an index up to date.
#[derive(Debug, Clone, Copy, PartialEq, Eq, Structural)]
pub struct ReindexMetrics {
    pub files_discovered: usize,
    pub files_indexed: usize,
    pub files_removed: usize,
    pub definitions_inserted: usize,
    pub references_inserted: usize,
    pub calls_inserted: usize,
    pub inheritance_inserted: usize,
    pub discover_ms: u128,
    pub checksum_ms: u128,
    pub parse_ms: u128,
    pub db_ms: u128,
    pub total_ms: u128,
}

/// What was done to bring an index up to date, as a value.
pub open spec fn reindex_metrics_value(m: ReindexMetrics) -> JsonView {
    JsonView::Object(
        seq![
            ("files_discovered"@, json::count_value(m.files_discovered as nat)),
            ("files_indexed"@, json::count_value(m.files_indexed as nat)),
            ("files_removed"@, json::count_value(m.files_removed as nat)),
            ("definitions_inserted"@, json::count_value(m.definitions_inserted as nat)),
            ("references_inserted"@, json::count_value(m.references_inserted as nat)),
            ("calls_inserted"@, json::count_value(m.calls_inserted as nat)),
            ("inheritance_inserted"@, json::count_value(m.inheritance_inserted as nat)),
            ("discover_ms"@, json::count_value(m.discover_ms as nat)),
            ("checksum_ms"@, json::count_value(m.checksum_ms as nat)),
            ("parse_ms"@, json::count_value(m.parse_ms as nat)),
            ("db_ms"@, json::count_value(m.db_ms as nat)),
            ("total_ms"@, json::count_value(m.total_ms as nat)),
        ],
    )
}

/// What was done to bring an index up to date, as a value.
pub fn reindex_metrics_json(m: &ReindexMetrics) -> (r: Json)
    ensures
        r@ == reindex_metrics_value(*m),
{
    let r = Fields::new().with("files_discovered", Json::count(m.files_discovered)).with(
        "files_indexed",
        Json::count(m.files_indexed),
    ).with("files_removed", Json::count(m.files_removed)).with(
        "definitions_inserted",
        Json::count(m.definitions_inserted),
    ).with("references_inserted", Json::count(m.references_inserted)).with(
        "calls_inserted",
        Json::count(m.calls_inserted),
    ).with("inheritance_inserted", Json::count(m.inheritance_inserted)).with(
        "discover_ms",
        Json::long_count(m.discover_ms),
    ).with("checksum_ms", Json::long_count(m.checksum_ms)).with(
        "parse_ms",
        Json::long_count(m.parse_ms),
    ).with("db_ms", Json::long_count(m.db_ms)).with(
        "total_ms",
        Json::long_count(m.total_ms),
    ).object();
    assert(r@->Object_0 =~= reindex_metrics_value(*m)->Object_0);
    r
}

/// How an index was brought up to date before a query.
#[derive(Debug)]
pub enum ReindexReport {
    /// It was not, for a reason.
    Skipped { reason: &'static str },
    /// It was, with a configuration from a source.
    Checked { source: &'static str, metrics: ReindexMetrics },
}

/// How an index was brought up to date before a query, as a value.
pub open spec fn reindex_value(r: ReindexReport) -> JsonView {
    match r {
        ReindexReport::Skipped { reason } => JsonView::Object(
            seq![("checked"@, JsonView::Bool(false)), ("reason"@, json::text_value(reason@))],
        ),
        ReindexReport::Checked { source, metrics } => JsonView::Object(
            seq![
                ("checked"@, JsonView::Bool(true)),
                ("source"@, json::text_value(source@)),
                ("metrics"@, reindex_metrics_value(metrics)),
            ],
        ),
    }
}

/// How an index was brought up to date before a query, as a value.
pub fn reindex_json(x: &ReindexReport) -> (r: Json)
    ensures
        r@ == reindex_value(*x),
{
    let r = match x {
        ReindexReport::Skipped { reason } => Fields::new().with("checked", Json::Bool(false)).with(
            "reason",
            Json::text(reason),
        ).object(),
        ReindexReport::Checked { source, metrics } => Fields::new().with(
            "checked",
            Json::Bool(true),
        ).with("source", Json::text(source)).with(
            "metrics",
            reindex_metrics_json(metrics),
        ).object(),
    };
    assert(r@->Object_0 =~= reindex_value(*x)->Object_0);
    r
}

/// What `reindex` answers.
pub open spec fn reindex_answer(
    db: Seq<char>,
    roots: Seq<Seq<char>>,
    language: Seq<char>,
    metrics: ReindexMetrics,
) -> JsonView {
    JsonView::Object(
        answer_head("reindex"@, db) + seq![
            ("roots"@, JsonView::Array(roots.map_values(|s: Seq<char>| json::text_value(s)))),
            ("language"@, json::text_value(language)),
            ("metrics"@, reindex_metrics_value(metrics)),
        ],
    )
}

/// What `reindex` answers.
pub fn reindex_response(db: &str, roots: &Vec<String>, language: &str, metrics: &ReindexMetrics) -> (r:
    Json)
    ensures
        r@ == reindex_answer(db@, text::views(roots@), language@, *metrics),
{
    let r = head("reindex", db).with("roots", Json::texts(roots)).with(
        "language",
        Json::text(language),
    ).with("metrics", reindex_metrics_json(metrics)).object();
    assert(r@->Object_0 =~= reindex_answer(
        db@,
        text::views(roots@),
        language@,
        *metrics,
    )->Object_0);
    r
}

/// The timings of a streamed write as a value.
pub open spec fn writer_value(w: Option<StreamedDbWriteMetrics>) -> JsonView {
    match w {
        Some(w) => JsonView::Object(
            seq![
                ("setup_ms"@, json::count_value(w.setup_ms as nat)),
                (
                    "streamed_files_and_definitions_ms"@,
                    json::count_value(w.streamed_files_and_definitions_ms as nat),
                ),
                ("pending_edges_ms"@, json::count_value(w.pending_edges_ms as nat)),
                ("commit_ms"@, json::count_value(w.commit_ms as nat)),
                ("create_indexes_ms"@, json::count_value(w.create_indexes_ms as nat)),
                ("finalize_ms"@, json::count_value(w.finalize_ms as nat)),
                ("total_ms"@, json::count_value(w.total_ms as nat)),
            ],
        ),
        None => JsonView::Null,
    }
}

/// The timings of a streamed write as a value.
fn writer_json(w: &Option<StreamedDbWriteMetrics>) -> (r: Json)
    ensures
        r@ == writer_value(*w),
{
    match w {
        Some(x) => {
            let r = Fields::new().with("setup_ms", Json::long_count(x.setup_ms)).with(
                "streamed_files_and_definitions_ms",
                Json::long_count(x.streamed_files_and_definitions_ms),
            ).with("pending_edges_ms", Json::long_count(x.pending_edges_ms)).with(
                "commit_ms",
                Json::long_count(x.commit_ms),
            ).with("create_indexes_ms", Json::long_count(x.create_indexes_ms)).with(
                "finalize_ms",
                Json::long_count(x.finalize_ms),
            ).with("total_ms", Json::long_count(x.total_ms)).object();
            assert(r@->Object_0 =~= writer_value(*w)->Object_0);
            r
        },
        None => Json::Null,
    }
}

/// The timings of a save as a value.
pub open spec fn save_value(s: Option<SaveMetrics>) -> JsonView {
    match s {
        Some(s) => JsonView::Object(
            seq![
                ("db"@, json::text_value(s.db@)),
                ("save_ms"@, json::count_value(s.save_ms as nat)),
                ("writer"@, writer_value(s.writer)),
                (
                    "db_bytes"@,
                    match s.db_bytes {
                        Some(n) => json::count_value(n as nat),
                        None => JsonView::Null,
                    },
                ),
            ],
        ),
        None => JsonView::Null,
    }
}

/// The timings of a save as a value.
fn save_json(s: &Option<SaveMetrics>) -> (r: Json)
    ensures
        r@ == save_value(*s),
{
    match s {
        Some(x) => {
            let bytes = match x.db_bytes {
                Some(n) => Json::long_count(n as u128),
                None => Json::Null,
            };
            let r = Fields::new().with("db", Json::text(x.db.as_str())).with(
                "save_ms",
                Json::long_count(x.save_ms),
            ).with("writer", writer_json(&x.writer)).with("db_bytes", bytes).object();
            assert(r@->Object_0 =~= save_value(*s)->Object_0);
            r
        },
        None => Json::Null,
    }
}

/// The name that a reference mode has in reports.
pub open spec fn mode_label(mode: ReferenceMode) -> Seq<char> {
    match mode {
        ReferenceMode::Off => "None"@,
        ReferenceMode::Calls => "Calls"@,
        ReferenceMode::All => "All"@,
    }
}

/// What `bench` answers.
pub open spec fn bench_answer(x: BenchmarkReport) -> JsonView {
    JsonView::Object(
        seq![
            ("ok"@, JsonView::Bool(true)),
            ("command"@, json::text_value("benchmark"@)),
            (
                "report"@,
                JsonView::Object(
                    seq![
                        (
                            "roots"@,
                            JsonView::Array(
                                text::views(x.roots@).map_values(
                                    |s: Seq<char>| json::text_value(s),
                                ),
                            ),
                        ),
                        ("language"@, json::text_value(x.language@)),
                        ("follow_symlinks"@, JsonView::Bool(x.follow_symlinks)),
                        ("reference_mode"@, json::text_value(mode_label(x.reference_mode))),
                        (
                            "include_reference_context"@,
                            JsonView::Bool(x.include_reference_context),
                        ),
                        ("index"@, metrics_value(x.index)),
                        ("save"@, save_value(x.save)),
                        ("total_ms"@, json::count_value(x.total_ms as nat)),
                    ],
                ),
            ),
        ],
    )
}

/// What `bench` answers.
pub fn bench_response(x: &BenchmarkReport) -> (r: Json)
    ensures
        r@ == bench_answer(*x),
{
    let mode = match x.reference_mode {
        ReferenceMode::Off => "None",
        ReferenceMode::Calls => "Calls",
        ReferenceMode::All => "All",
    };
    let report = Fields::new().with("roots", Json::texts(&x.roots)).with(
        "language",
        Json::text(x.language),
    ).with("follow_symlinks", Json::Bool(x.follow_symlinks)).with(
        "reference_mode",
        Json::text(mode),
    ).with("include_reference_context", Json::Bool(x.include_reference_context)).with(
        "index",
        metrics_json(&x.index),
    ).with("save", save_json(&x.save)).with("total_ms", Json::long_count(x.total_ms)).object();
    let ghost wanted = bench_answer(*x)->Object_0;
    assert(report@->Object_0 =~= wanted[2].1->Object_0);
    let r = Fields::new().with("ok", Json::Bool(true)).with(
        "command",
        Json::text("benchmark"),
    ).with("report", report).object();
    assert(r@->Object_0 =~= wanted);
    r
}

/// What `stats` answers.
pub open spec fn stats_answer(db: Seq<char>, ix: IndexView, reindex: ReindexReport) -> JsonView {
    JsonView::Object(
        answer_head("stats"@, db) + seq![
            ("summary"@, hits::summary_value(ix)),
            ("files"@, hits::file_values(ix.files)),
            ("reindex"@, reindex_value(reindex)),
        ],
    )
}

/// What `stats` answers.
pub fn stats_response(db: &str, index: &Index, reindex: &ReindexReport) -> (r: Json)
    ensures
        r@ == stats_answer(db@, index@, *reindex),
{
    let r = head("stats", db).with("summary", index_summary(index)).with(
        "files",
        files_json(index.files()),
    ).with("reindex", reindex_json(reindex)).object();
    assert(r@->Object_0 =~= stats_answer(db@, index@, *reindex)->Object_0);
    r
}

/// The note that `find` adds.
pub const FIND_NOTE: &'static str =
    "Tree-sitter structural candidates; prefer exact_qualified/exact_simple before substring results";

/// The note that `expand` adds.
pub const EXPAND_NOTE: &'static str =
    "Call edges are Tree-sitter structural candidates; callee names may be simple names for member/qualified calls";

/// What `find` answers.
pub open spec fn find_answer(
    db: Seq<char>,
    query: Seq<char>,
    defs: Seq<DefinitionView>,
    snippets: Seq<Option<SnippetView>>,
    reindex: ReindexReport,
) -> JsonView {
    JsonView::Object(
        answer_head("find"@, db) + seq![
            ("query"@, json::text_value(query)),
            ("result_count"@, json::count_value(defs.len())),
            ("results"@, hits::query_hits(defs, query, snippets)),
            ("notes"@, JsonView::Array(seq![json::text_value(FIND_NOTE@)])),
            ("reindex"@, reindex_value(reindex)),
        ],
    )
}

/// A list of one text.
fn note(s: &str) -> (r: Json)
    ensures
        r@ == JsonView::Array(seq![json::text_value(s@)]),
{
    let mut v: Vec<Json> = Vec::new();
    v.push(Json::text(s));
    let r = Json::array(v);
    assert(r@->Array_0 =~= seq![json::text_value(s@)]);
    r
}

/// What `find` answers.
pub fn find_response(
    db: &str,
    query: &str,
    defs: &Vec<&Definition>,
    snippets: &Vec<Option<Snippet>>,
    reindex: &ReindexReport,
) -> (r: Json)
    ensures
        r@ == find_answer(
            db@,
            query@,
            text::views(defs@),
            hits::snippet_views(snippets@),
            *reindex,
        ),
{
    let r = head("find", db).with("query", Json::text(query)).with(
        "result_count",
        Json::count(defs.len()),
    ).with("results", query_hits_json(defs, query, snippets)).with("notes", note(FIND_NOTE)).with(
        "reindex",
        reindex_json(reindex),
    ).object();
    assert(r@->Object_0 =~= find_answer(
        db@,
        query@,
        text::views(defs@),
        hits::snippet_views(snippets@),
        *reindex,
    )->Object_0);
    r
}

/// What a query answers with a list of results.
pub open spec fn list_answer(
    command: Seq<char>,
    db: Seq<char>,
    query: Seq<char>,
    count: nat,
    results: JsonView,
    reindex: ReindexReport,
) -> JsonView {
    JsonView::Object(
        answer_head(command, db) + seq![
            ("query"@, json::text_value(query)),
            ("result_count"@, json::count_value(count)),
            ("results"@, results),
            ("reindex"@, reindex_value(reindex)),
        ],
    )
}

/// What a query answers with a list of results.
fn list_response(
    command: &str,
    db: &str,
    query: &str,
    count: usize,
    results: Json,
    reindex: &ReindexReport,
) -> (r: Json)
    ensures
        r@ == list_answer(command@, db@, query@, count as nat, results@, *reindex),
{
    let ghost shown = results@;
    let r = head(command, db).with("query", Json::text(query)).with(
        "result_count",
        Json::count(count),
    ).with("results", results).with("reindex", reindex_json(reindex)).object();
    assert(r@->Object_0 =~= list_answer(
        command@,
        db@,
        query@,
        count as nat,
        shown,
        *reindex,
    )->Object_0);
    r
}

/// What `search` answers.
pub fn search_response(
    db: &str,
    query: &str,
    defs: &Vec<&Definition>,
    snippets: &Vec<Option<Snippet>>,
    reindex: &ReindexReport,
) -> (r: Json)
    ensures
        r@ == list_answer(
            "search"@,
            db@,
            query@,
            defs@.len(),
            hits::query_hits(text::views(defs@), query@, hits::snippet_views(snippets@)),
            *reindex,
        ),
{
    list_response(
        "search",
        db,
        query,
        defs.len(),
        query_hits_json(defs, query, snippets),
        reindex,
    )
}

/// What `refs` answers.
pub fn refs_response(
    db: &str,
    query: &str,
    uses: &Vec<&Reference>,
    snippets: &Vec<Option<Snippet>>,
    reindex: &ReindexReport,
) -> (r: Json)
    ensures
        r@ == list_answer(
            "refs"@,
            db@,
            query@,
            uses@.len(),
            hits::reference_hits(text::views(uses@), hits::snippet_views(snippets@)),
            *reindex,
        ),
{
    list_response("refs", db, query, uses.len(), ref_hits(uses, snippets), reindex)
}

/// What `callers` and `callees` answer.
pub fn endpoints_response(
    command: &str,
    db: &str,
    query: &str,
    defs: &Vec<&Definition>,
    snippets: &Vec<Option<Snippet>>,
    reindex: &ReindexReport,
) -> (r: Json)
    ensures
        r@ == list_answer(
            command@,
            db@,
            query@,
            defs@.len(),
            hits::definition_hits(
                text::views(defs@),
                "structural_call_endpoint"@,
                hits::snippet_views(snippets@),
            ),
            *reindex,
        ),
{
    list_response(
        command,
        db,
        query,
        defs.len(),
        definition_hits_with_confidence(defs, "structural_call_endpoint", snippets),
        reindex,
    )
}

/// What `context` answers about a symbol.
pub fn context_response(
    db: &str,
    query: &str,
    defs: &Vec<&Definition>,
    snippets: &Vec<Option<Snippet>>,
    reindex: &ReindexReport,
) -> (r: Json)
    ensures
        r@ == list_answer(
            "context"@,
            db@,
            query@,
            defs@.len(),
            hits::definition_contexts(text::views(defs@), hits::snippet_views(snippets@)),
            *reindex,
        ),
{
    list_response(
        "context",
        db,
        query,
        defs.len(),
        definition_contexts_json(defs, snippets),
        reindex,
    )
}

/// What `context` answers about a place.
pub open spec fn place_answer(
    file: Seq<char>,
    line: usize,
    shown: Option<SnippetView>,
) -> JsonView {
    JsonView::Object(
        seq![
            ("ok"@, JsonView::Bool(true)),
            ("command"@, json::text_value("context"@)),
            (
                "target"@,
                JsonView::Object(
                    seq![
                        ("file"@, json::text_value(file)),
                        ("line"@, json::count_value(line as nat)),
                    ],
                ),
            ),
            ("snippet"@, snippet::snippet_value(shown)),
        ],
    )
}

/// What `context` answers about a place.
pub fn place_response(file: &str, line: usize, shown: &Option<Snippet>) -> (r: Json)
    ensures
        r@ == place_answer(file@, line, text::view_opt(*shown)),
{
    let ghost wanted = place_answer(file@, line, text::view_opt(*shown))->Object_0;
    let target = Fields::new().with("file", Json::text(file)).with(
        "line",
        Json::count(line),
    ).object();
    assert(target@->Object_0 =~= wanted[2].1->Object_0);
    let r = Fields::new().with("ok", Json::Bool(true)).with("command", Json::text("context")).with(
        "target",
        target,
    ).with("snippet", snippet_json(shown)).object();
    assert(r@->Object_0 =~= wanted);
    r
}

/// What `hierarchy` answers.
pub open spec fn hierarchy_answer(
    db: Seq<char>,
    query: Seq<char>,
    bases: Seq<DefinitionView>,
    base_snippets: Seq<Option<SnippetView>>,
    derived: Seq<DefinitionView>,
    derived_snippets: Seq<Option<SnippetView>>,
    reindex: ReindexReport,
) -> JsonView {
    JsonView::Object(
        answer_head("hierarchy"@, db) + seq![
            ("query"@, json::text_value(query)),
            ("bases"@, hits::definition_hits(bases, "inheritance_edge"@, base_snippets)),
            ("derived"@, hits::definition_hits(derived, "inheritance_edge"@, derived_snippets)),
            ("reindex"@, reindex_value(reindex)),
        ],
    )
}

/// What `hierarchy` answers.
pub fn hierarchy_response(
    db: &str,
    query: &str,
    hierarchy: &ClassHierarchy<'_>,
    base_snippets: &Vec<Option<Snippet>>,
    derived_snippets: &Vec<Option<Snippet>>,
    reindex: &ReindexReport,
) -> (r: Json)
    ensures
        r@ == hierarchy_answer(
            db@,
            query@,
            text::views(hierarchy.bases@),
            hits::snippet_views(base_snippets@),
            text::views(hierarchy.derived@),
            hits::snippet_views(derived_snippets@),
            *reindex,
        ),
{
    let r = head("hierarchy", db).with("query", Json::text(query)).with(
        "bases",
        definition_hits_with_confidence(&hierarchy.bases, "inheritance_edge", base_snippets),
    ).with(
        "derived",
        definition_hits_with_confidence(&hierarchy.derived, "inheritance_edge", derived_snippets),
    ).with("reindex", reindex_json(reindex)).object();
    assert(r@->Object_0 =~= hierarchy_answer(
        db@,
        query@,
        text::views(hierarchy.bases@),
        hits::snippet_views(base_snippets@),
        text::views(hierarchy.derived@),
        hits::snippet_views(derived_snippets@),
        *reindex,
    )->Object_0);
    r
}

/// What `expand` answers.
pub open spec fn expand_answer(
    db: Seq<char>,
    seed: Seq<char>,
    direction: Seq<char>,
    depth: usize,
    edges: Seq<(CallEdgeView, usize)>,
    snippets: Seq<Option<SnippetView>>,
    reindex: ReindexReport,
) -> JsonView {
    JsonView::Object(
        answer_head("expand"@, db) + seq![
            ("seed"@, json::text_value(seed)),
            ("direction"@, json::text_value(direction)),
            ("depth"@, json::count_value(depth as nat)),
            ("edge_count"@, json::count_value(edges.len())),
            ("edges"@, hits::call_hits(edges, snippets)),
            ("notes"@, JsonView::Array(seq![json::text_value(EXPAND_NOTE@)])),
            ("reindex"@, reindex_value(reindex)),
        ],
    )
}

/// What `expand` answers.
pub fn expand_response(
    db: &str,
    seed: &str,
    direction: &str,
    depth: usize,
    edges: &Vec<ReachedCall<'_>>,
    snippets: &Vec<Option<Snippet>>,
    reindex: &ReindexReport,
) -> (r: Json)
    ensures
        r@ == expand_answer(
            db@,
            seed@,
            direction@,
            depth,
            text::views(edges@),
            hits::snippet_views(snippets@),
            *reindex,
        ),
{
    let r = head("expand", db).with("seed", Json::text(seed)).with(
        "direction",
        Json::text(direction),
    ).with("depth", Json::count(depth)).with("edge_count", Json::count(edges.len())).with(
        "edges",
        call_hits_json(edges, snippets),
    ).with("notes", note(EXPAND_NOTE)).with("reindex", reindex_json(reindex)).object();
    assert(r@->Object_0 =~= expand_answer(
        db@,
        seed@,
        direction@,
        depth,
        text::views(edges@),
        hits::snippet_views(snippets@),
        *reindex,
    )->Object_0);
    r
}

/// A row of a query result: a value for each column.
pub open spec fn row_value(columns: Seq<Seq<char>>, values: Seq<JsonView>) -> JsonView {
    JsonView::Object(Seq::new(columns.len(), |i: int| (columns[i], values[i])))
}

/// A row of a query result.
pub fn row_json(columns: &Vec<String>, values: Vec<Json>) -> (r: Json)
    requires
        columns@.len() == values@.len(),
    ensures
        r@ == row_value(text::views(columns@), text::views(values@)),
{
    let ghost all = values@;
    let ghost wanted = row_value(text::views(columns@), text::views(all))->Object_0;
    let mut fields = Fields::new();
    let count: usize = columns.len();
    let mut i: usize = 0;
    assert(wanted.take(0) =~= Seq::empty());
    for value in it: values
        invariant
            it.seq() == all,
            i == it.index(),
            count == columns@.len(),
            count == all.len(),
            wanted == row_value(text::views(columns@), text::views(all))->Object_0,
            fields@ == wanted.take(i as int),
    {
        assert(wanted.take(i + 1) =~= wanted.take(i as int).push((columns@[i as int]@, value@)));
        fields = fields.with(columns[i].as_str(), value);
        i = i + 1;
    }
    assert(wanted.take(i as int) =~= wanted);
    fields.object()
}

/// What `sql` answers.
pub open spec fn sql_answer(
    db: Seq<char>,
    columns: Seq<Seq<char>>,
    rows: Seq<JsonView>,
    reindex: ReindexReport,
) -> JsonView {
    JsonView::Object(
        answer_head("sql"@, db) + seq![
            ("columns"@, JsonView::Array(columns.map_values(|s: Seq<char>| json::text_value(s)))),
            ("row_count"@, json::count_value(rows.len())),
            ("rows"@, JsonView::Array(rows)),
            ("reindex"@, reindex_value(reindex)),
        ],
    )
}

/// What `sql` answers.
pub fn sql_response(db: &str, columns: &Vec<String>, rows: Vec<Json>, reindex: &ReindexReport) -> (r:
    Json)
    ensures
        r@ == sql_answer(db@, text::views(columns@), text::views(rows@), *reindex),
{
    let ghost wanted = sql_answer(db@, text::views(columns@), text::views(rows@), *reindex);
    let count = rows.len();
    let r = head("sql", db).with("columns", Json::texts(columns)).with(
        "row_count",
        Json::count(count),
    ).with("rows", Json::array(rows)).with("reindex", reindex_json(reindex)).object();
    assert(r@->Object_0 =~= wanted->Object_0);
    r
}

/// What a command answers that failed.
pub open spec fn error_answer(message: Seq<char>) -> JsonView {
    JsonView::Object(
        seq![("ok"@, JsonView::Bool(false)), ("error"@, json::text_value(message))],
    )
}

/// What a command answers that failed.
pub fn error_response(message: &str) -> (r: Json)
    ensures
        r@ == error_answer(message@),
{
    let r = Fields::new().with("ok", Json::Bool(false)).with("error", Json::text(message)).object();
    assert(r@->Object_0 =~= error_answer(message@)->Object_0);
    r
}

} // verus!
