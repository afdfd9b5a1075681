//! The tools that the server offers, with the schemas of their arguments.
use crate::args::DEFAULT_DB_PATH;
use crate::json::{Fields, Json, JsonView};
use crate::json;
use crate::text::joined;
use crate::text;
use vstd::prelude::*;

verus! {

/// The members of an object.
pub type Members = Seq<(Seq<char>, JsonView)>;

/// A property of a kind.
pub open spec fn plain(kind: Seq<char>) -> JsonView {
    JsonView::Object(seq![("type"@, json::text_value(kind))])
}

/// A described property of a kind.
pub open spec fn described(kind: Seq<char>, description: Seq<char>) -> JsonView {
    JsonView::Object(
        seq![
            ("type"@, json::text_value(kind)),
            ("description"@, json::text_value(description)),
        ],
    )
}

/// A text that is one of some words.
pub open spec fn one_of(words: Seq<Seq<char>>, description: Seq<char>) -> JsonView {
    JsonView::Object(
        seq![
            ("type"@, json::text_value("string"@)),
            ("enum"@, JsonView::Array(words.map_values(|w: Seq<char>| json::text_value(w)))),
            ("description"@, json::text_value(description)),
        ],
    )
}

/// A list of texts.
pub open spec fn text_list(description: Seq<char>) -> JsonView {
    JsonView::Object(
        seq![
            ("type"@, json::text_value("array"@)),
            ("items"@, plain("string"@)),
            ("description"@, json::text_value(description)),
        ],
    )
}

/// A whole number that is not below a bound.
pub open spec fn at_least(bound: nat) -> JsonView {
    JsonView::Object(
        seq![("type"@, json::text_value("integer"@)), ("minimum"@, json::count_value(bound))],
    )
}

/// A described whole number that is not below a bound.
pub open spec fn described_at_least(bound: nat, description: Seq<char>) -> JsonView {
    JsonView::Object(
        seq![
            ("type"@, json::text_value("integer"@)),
            ("minimum"@, json::count_value(bound)),
            ("description"@, json::text_value(description)),
        ],
    )
}

/// The schema of arguments with properties.
pub open spec fn schema(properties: Members) -> JsonView {
    JsonView::Object(
        seq![
            ("type"@, json::text_value("object"@)),
            ("properties"@, JsonView::Object(properties)),
        ],
    )
}

/// The schema of arguments with properties, one of which has to be given.
pub open spec fn schema_with(properties: Members, required: Seq<char>) -> JsonView {
    JsonView::Object(
        seq![
            ("type"@, json::text_value("object"@)),
            ("properties"@, JsonView::Object(properties)),
            ("required"@, JsonView::Array(seq![json::text_value(required)])),
        ],
    )
}

/// A tool.
pub open spec fn tool_value(
    name: Seq<char>,
    description: Seq<char>,
    input_schema: JsonView,
) -> JsonView {
    JsonView::Object(
        seq![
            ("name"@, json::text_value(name)),
            ("description"@, json::text_value(description)),
            ("inputSchema"@, input_schema),
        ],
    )
}

/// What is said of the database.
pub open spec fn db_description() -> Seq<char> {
    "SQLite DB path. Defaults to "@ + DEFAULT_DB_PATH@ + "."@
}

/// The properties of the tools that index.
pub open spec fn index_properties() -> Members {
    seq![
        ("roots"@, text_list("Source roots to index."@)),
        ("db"@, described("string"@, db_description())),
        ("language"@, one_of(seq!["cpp"@, "c"@], "Source language. Defaults to cpp."@)),
        (
            "references"@,
            one_of(
                seq!["none"@, "calls"@, "all"@],
                "Reference storage mode. Default none keeps DB smaller while preserving call_graph."@,
            ),
        ),
        ("threads"@, at_least(1)),
        ("follow_symlinks"@, plain("boolean"@)),
        (
            "reference_context"@,
            described(
                "boolean"@,
                "Store per-reference source-line context. Usually leave false and use xref_context lazily."@,
            ),
        ),
    ]
}

/// The properties that all queries share.
pub open spec fn query_properties() -> Members {
    seq![
        ("db"@, described("string"@, db_description())),
        (
            "roots"@,
            text_list(
                "Optional roots to use for this auto-reindex check instead of saved DB roots."@,
            ),
        ),
        ("limit"@, at_least(0)),
        (
            "context_lines"@,
            described_at_least(0, "Source snippet radius around each hit. Defaults to 3."@),
        ),
        (
            "snippets"@,
            described(
                "boolean"@,
                "Include source snippets when the underlying command supports them. Defaults to true."@,
            ),
        ),
        (
            "no_reindex"@,
            described("boolean"@, "Skip the query-time incremental reindex check."@),
        ),
        (
            "include_search"@,
            described(
                "boolean"@,
                "For xref_find, include substring fallback results even when exact results exist."@,
            ),
        ),
    ]
}

/// The schema of a query that needs one text.
pub open spec fn query_schema_value(name: Seq<char>, description: Seq<char>) -> JsonView {
    schema_with(query_properties().push((name, described("string"@, description))), name)
}

/// The schema of `xref_context`.
pub open spec fn context_schema_value() -> JsonView {
    schema(
        query_properties() + seq![
            ("symbol"@, described("string"@, "Symbol to fetch context for."@)),
            ("file"@, described("string"@, "Source file path for direct file/line context."@)),
            ("line"@, described_at_least(1, "1-based source line for direct context."@)),
        ],
    )
}

/// The schema of `xref_expand`.
pub open spec fn expand_schema_value() -> JsonView {
    schema_with(
        query_properties() + seq![
            ("symbol"@, described("string"@, "Seed symbol for the call graph expansion."@)),
            (
                "direction"@,
                one_of(
                    seq!["callers"@, "callees"@, "both"@],
                    "Expansion direction. Defaults to both."@,
                ),
            ),
            ("depth"@, described_at_least(1, "Expansion depth. Defaults to 1."@)),
        ],
        "symbol"@,
    )
}

/// The tools, in the order in which they are listed.
pub open spec fn all_tools() -> Seq<JsonView> {
    seq![
        tool_value(
            "xref_index"@,
            "Build or rebuild the SQLite xref database for one or more C/C++ roots. Use before lookup, or when changing indexing options."@,
            schema_with(index_properties(), "roots"@),
        ),
        tool_value(
            "xref_reindex"@,
            "Incrementally update the SQLite xref database by parsing only new or changed files under the given roots."@,
            schema_with(index_properties(), "roots"@),
        ),
        tool_value(
            "xref_find"@,
            "Find definition candidates for a function, class, method, macro, variable, or qualified C++ symbol. Runs auto-reindex by default."@,
            query_schema_value("symbol"@, "Symbol name or qualified name to find."@),
        ),
        tool_value(
            "xref_search"@,
            "Substring search over indexed definitions. Use when the exact symbol spelling is unknown."@,
            query_schema_value("pattern"@, "Case-insensitive substring to search in symbol names."@),
        ),
        tool_value(
            "xref_refs"@,
            "Find stored reference rows for a symbol. Requires an index built with references=calls or references=all."@,
            query_schema_value("symbol"@, "Symbol name to find references for."@),
        ),
        tool_value(
            "xref_callers"@,
            "Find functions or methods that call the requested symbol using the structural call graph."@,
            query_schema_value("symbol"@, "Callee symbol name or qualified name."@),
        ),
        tool_value(
            "xref_callees"@,
            "Find functions or methods called by the requested symbol using the structural call graph."@,
            query_schema_value("symbol"@, "Caller symbol name or qualified name."@),
        ),
        tool_value(
            "xref_hierarchy"@,
            "Find base and derived classes for a class name using indexed inheritance edges."@,
            query_schema_value("class"@, "Class name or qualified class name."@),
        ),
        tool_value(
            "xref_context"@,
            "Fetch source context by symbol or by explicit file and line."@,
            context_schema_value(),
        ),
        tool_value(
            "xref_expand"@,
            "Expand a call graph around a seed symbol across callers, callees, or both."@,
            expand_schema_value(),
        ),
        tool_value(
            "xref_stats"@,
            "Show database summary, indexed files, and auto-reindex status."@,
            schema(query_properties()),
        ),
        tool_value(
            "xref_sql"@,
            "Run a read-only SELECT/WITH/PRAGMA SQL query against the xref SQLite database."@,
            query_schema_value(
                "sql"@,
                "Read-only SQL beginning with SELECT, WITH, or PRAGMA."@,
            ),
        ),
    ]
}

/// A property of a kind.
fn plain_property(kind: &str) -> (r: Json)
    ensures
        r@ == plain(kind@),
{
    let r = Fields::new().with("type", Json::text(kind)).object();
    assert(r@->Object_0 =~= plain(kind@)->Object_0);
    r
}

/// A described property of a kind.
fn described_property(kind: &str, description: &str) -> (r: Json)
    ensures
        r@ == described(kind@, description@),
{
    let r = Fields::new().with("type", Json::text(kind)).with(
        "description",
        Json::text(description),
    ).object();
    assert(r@->Object_0 =~= described(kind@, description@)->Object_0);
    r
}

/// A text that is one of some words.
fn word_property(words: &Vec<&str>, description: &str) -> (r: Json)
    ensures
        r@ == one_of(words@.map_values(|w: &str| w@), description@),
{
    let ghost wanted = one_of(words@.map_values(|w: &str| w@), description@)->Object_0;
    let mut list: Vec<Json> = Vec::new();
    let mut i: usize = 0;
    while i < words.len()
        invariant
            i <= words@.len(),
            list@.len() == i,
            forall|k: int| 0 <= k < i ==> (#[trigger] list@[k])@ == json::text_value(words@[k]@),
        decreases words@.len() - i,
    {
        list.push(Json::text(words[i]));
        i = i + 1;
    }
    assert(text::views(list@) =~= wanted[1].1->Array_0);
    let r = Fields::new().with("type", Json::text("string")).with("enum", Json::array(list)).with(
        "description",
        Json::text(description),
    ).object();
    assert(r@->Object_0 =~= wanted);
    r
}

/// A list of texts.
fn list_property(description: &str) -> (r: Json)
    ensures
        r@ == text_list(description@),
{
    let r = Fields::new().with("type", Json::text("array")).with(
        "items",
        plain_property("string"),
    ).with("description", Json::text(description)).object();
    assert(r@->Object_0 =~= text_list(description@)->Object_0);
    r
}

/// A whole number that is not below a bound.
fn bounded_property(bound: usize) -> (r: Json)
    ensures
        r@ == at_least(bound as nat),
{
    let r = Fields::new().with("type", Json::text("integer")).with(
        "minimum",
        Json::count(bound),
    ).object();
    assert(r@->Object_0 =~= at_least(bound as nat)->Object_0);
    r
}

/// A described whole number that is not below a bound.
fn described_bounded_property(bound: usize, description: &str) -> (r: Json)
    ensures
        r@ == described_at_least(bound as nat, description@),
{
    let r = Fields::new().with("type", Json::text("integer")).with(
        "minimum",
        Json::count(bound),
    ).with("description", Json::text(description)).object();
    assert(r@->Object_0 =~= described_at_least(bound as nat, description@)->Object_0);
    r
}

/// The schema of arguments with properties.
fn open_schema(properties: Fields) -> (r: Json)
    ensures
        r@ == schema(properties@),
{
    let ghost wanted = schema(properties@)->Object_0;
    let r = Fields::new().with("type", Json::text("object")).with(
        "properties",
        properties.object(),
    ).object();
    assert(r@->Object_0 =~= wanted);
    r
}

/// The schema of arguments with properties, one of which has to be given.
fn strict_schema(properties: Fields, required: &str) -> (r: Json)
    ensures
        r@ == schema_with(properties@, required@),
{
    let ghost wanted = schema_with(properties@, required@)->Object_0;
    let mut names: Vec<Json> = Vec::new();
    names.push(Json::text(required));
    assert(text::views(names@) =~= seq![json::text_value(required@)]);
    let r = Fields::new().with("type", Json::text("object")).with(
        "properties",
        properties.object(),
    ).with("required", Json::array(names)).object();
    assert(r@->Object_0 =~= wanted);
    r
}

/// A tool.
fn tool(name: &str, description: &str, input_schema: Json) -> (r: Json)
    ensures
        r@ == tool_value(name@, description@, input_schema@),
{
    let ghost wanted = tool_value(name@, description@, input_schema@)->Object_0;
    let r = Fields::new().with("name", Json::text(name)).with(
        "description",
        Json::text(description),
    ).with("inputSchema", input_schema).object();
    assert(r@->Object_0 =~= wanted);
    r
}

/// The property of the database.
fn db_property() -> (r: Json)
    ensures
        r@ == described("string"@, db_description()),
{
    let start = joined("SQLite DB path. Defaults to ", DEFAULT_DB_PATH);
    described_property("string", joined(start.as_str(), ".").as_str())
}

/// The properties of the tools that index.
fn common_index_properties() -> (r: Fields)
    ensures
        r@ == index_properties(),
{
    let languages = vec!["cpp", "c"];
    let modes = vec!["none", "calls", "all"];
    proof {
        assert(languages@.map_values(|w: &str| w@) =~= seq!["cpp"@, "c"@]);
        assert(modes@.map_values(|w: &str| w@) =~= seq!["none"@, "calls"@, "all"@]);
    }
    let r = Fields::new().with("roots", list_property("Source roots to index.")).with(
        "db",
        db_property(),
    ).with("language", word_property(&languages, "Source language. Defaults to cpp.")).with(
        "references",
        word_property(
            &modes,
            "Reference storage mode. Default none keeps DB smaller while preserving call_graph.",
        ),
    ).with("threads", bounded_property(1)).with(
        "follow_symlinks",
        plain_property("boolean"),
    ).with(
        "reference_context",
        described_property(
            "boolean",
            "Store per-reference source-line context. Usually leave false and use xref_context lazily.",
        ),
    );
    assert(r@ =~= index_properties());
    r
}

/// The properties that all queries share.
fn common_query_properties() -> (r: Fields)
    ensures
        r@ == query_properties(),
{
    let r = Fields::new().with("db", db_property()).with(
        "roots",
        list_property(
            "Optional roots to use for this auto-reindex check instead of saved DB roots.",
        ),
    ).with("limit", bounded_property(0)).with(
        "context_lines",
        described_bounded_property(0, "Source snippet radius around each hit. Defaults to 3."),
    ).with(
        "snippets",
        described_property(
            "boolean",
            "Include source snippets when the underlying command supports them. Defaults to true.",
        ),
    ).with(
        "no_reindex",
        described_property("boolean", "Skip the query-time incremental reindex check."),
    ).with(
        "include_search",
        described_property(
            "boolean",
            "For xref_find, include substring fallback results even when exact results exist.",
        ),
    );
    assert(r@ =~= query_properties());
    r
}

/// The schema of a query that needs one text.
fn query_schema(name: &str, description: &str) -> (r: Json)
    ensures
        r@ == query_schema_value(name@, description@),
{
    strict_schema(
        common_query_properties().with(name, described_property("string", description)),
        name,
    )
}

/// The schema of `xref_context`.
fn context_schema() -> (r: Json)
    ensures
        r@ == context_schema_value(),
{
    let properties = common_query_properties().with(
        "symbol",
        described_property("string", "Symbol to fetch context for."),
    ).with(
        "file",
        described_property("string", "Source file path for direct file/line context."),
    ).with(
        "line",
        described_bounded_property(1, "1-based source line for direct context."),
    );
    assert(properties@ =~= query_properties() + seq![
        ("symbol"@, described("string"@, "Symbol to fetch context for."@)),
        ("file"@, described("string"@, "Source file path for direct file/line context."@)),
        ("line"@, described_at_least(1, "1-based source line for direct context."@)),
    ]);
    open_schema(properties)
}

/// The schema of `xref_expand`.
fn expand_schema() -> (r: Json)
    ensures
        r@ == expand_schema_value(),
{
    let directions = vec!["callers", "callees", "both"];
    assert(directions@.map_values(|w: &str| w@) =~= seq!["callers"@, "callees"@, "both"@]);
    let properties = common_query_properties().with(
        "symbol",
        described_property("string", "Seed symbol for the call graph expansion."),
    ).with(
        "direction",
        word_property(&directions, "Expansion direction. Defaults to both."),
    ).with("depth", described_bounded_property(1, "Expansion depth. Defaults to 1."));
    assert(properties@ =~= query_properties() + seq![
        ("symbol"@, described("string"@, "Seed symbol for the call graph expansion."@)),
        (
            "direction"@,
            one_of(
                seq!["callers"@, "callees"@, "both"@],
                "Expansion direction. Defaults to both."@,
            ),
        ),
        ("depth"@, described_at_least(1, "Expansion depth. Defaults to 1."@)),
    ]);
    strict_schema(properties, "symbol")
}

/// The tools, in the order in which they are listed.
pub fn tools() -> (r: Vec<Json>)
    ensures
        text::views(r@) == all_tools(),
{
    let mut r: Vec<Json> = Vec::new();
    r.push(
        tool(
            "xref_index",
            "Build or rebuild the SQLite xref database for one or more C/C++ roots. Use before lookup, or when changing indexing options.",
            strict_schema(common_index_properties(), "roots"),
        ),
    );
    r.push(
        tool(
            "xref_reindex",
            "Incrementally update the SQLite xref database by parsing only new or changed files under the given roots.",
            strict_schema(common_index_properties(), "roots"),
        ),
    );
    r.push(
        tool(
            "xref_find",
            "Find definition candidates for a function, class, method, macro, variable, or qualified C++ symbol. Runs auto-reindex by default.",
            query_schema("symbol", "Symbol name or qualified name to find."),
        ),
    );
    r.push(
        tool(
            "xref_search",
            "Substring search over indexed definitions. Use when the exact symbol spelling is unknown.",
            query_schema("pattern", "Case-insensitive substring to search in symbol names."),
        ),
    );
    r.push(
        tool(
            "xref_refs",
            "Find stored reference rows for a symbol. Requires an index built with references=calls or references=all.",
            query_schema("symbol", "Symbol name to find references for."),
        ),
    );
    r.push(
        tool(
            "xref_callers",
            "Find functions or methods that call the requested symbol using the structural call graph.",
            query_schema("symbol", "Callee symbol name or qualified name."),
        ),
    );
    r.push(
        tool(
            "xref_callees",
            "Find functions or methods called by the requested symbol using the structural call graph.",
            query_schema("symbol", "Caller symbol name or qualified name."),
        ),
    );
    r.push(
        tool(
            "xref_hierarchy",
            "Find base and derived classes for a class name using indexed inheritance edges.",
            query_schema("class", "Class name or qualified class name."),
        ),
    );
    r.push(
        tool(
            "xref_context",
            "Fetch source context by symbol or by explicit file and line.",
            context_schema(),
        ),
    );
    r.push(
        tool(
            "xref_expand",
            "Expand a call graph around a seed symbol across callers, callees, or both.",
            expand_schema(),
        ),
    );
    r.push(
        tool(
            "xref_stats",
            "Show database summary, indexed files, and auto-reindex status.",
            open_schema(common_query_properties()),
        ),
    );
    r.push(
        tool(
            "xref_sql",
            "Run a read-only SELECT/WITH/PRAGMA SQL query against the xref SQLite database.",
            query_schema("sql", "Read-only SQL beginning with SELECT, WITH, or PRAGMA."),
        ),
    );
    assert(text::views(r@) =~= all_tools());
    r
}

} // verus!
