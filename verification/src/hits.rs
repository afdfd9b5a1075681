//! What was found, as JSON values.
use crate::expand::ReachedCall;
use crate::index::{Index, IndexView};
use crate::json::{Fields, Json, JsonView};
use crate::json;
use crate::snippet::{snippet_json, Snippet, SnippetView};
use crate::snippet;
use crate::text::same;
use crate::text;
use crate::types::{
    CallEdge, CallEdgeView, Definition, DefinitionView, IndexedFile, IndexedFileView, Location,
    LocationView, Reference, ReferenceView,
};
use vstd::prelude::*;

verus! {

/// A location as a value.
pub open spec fn location_value(l: LocationView) -> JsonView {
    JsonView::Object(
        seq![
            ("file"@, json::text_value(l.file)),
            ("line"@, json::count_value(l.line as nat)),
            ("column"@, json::count_value(l.column as nat)),
            ("end_line"@, json::count_value(l.end_line as nat)),
            ("end_column"@, json::count_value(l.end_column as nat)),
        ],
    )
}

/// A location as a value.
pub fn location_json(l: &Location) -> (r: Json)
    ensures
        r@ == location_value(l@),
{
    let r = Fields::new().with("file", Json::text(l.file.as_str())).with(
        "line",
        Json::count(l.line),
    ).with("column", Json::count(l.column)).with("end_line", Json::count(l.end_line)).with(
        "end_column",
        Json::count(l.end_column),
    ).object();
    assert(r@->Object_0 =~= location_value(l@)->Object_0);
    r
}

/// A definition as a value.
pub open spec fn definition_value(d: DefinitionView) -> JsonView {
    JsonView::Object(
        seq![
            ("db_id"@, json::optional_integer(d.id)),
            ("name"@, json::text_value(d.name)),
            ("qualified_name"@, json::text_value(d.qualified_name)),
            ("kind"@, json::text_value(d.kind.name())),
            ("location"@, location_value(d.location)),
            ("parent"@, json::optional_text(d.parent)),
            ("signature"@, json::optional_text(d.signature)),
            ("visibility"@, json::text_value(d.visibility.name())),
            ("is_definition"@, JsonView::Bool(d.is_definition)),
            ("extra"@, json::optional_text(d.extra)),
        ],
    )
}

/// A definition as a value.
pub fn definition_json(d: &Definition) -> (r: Json)
    ensures
        r@ == definition_value(d@),
{
    let r = Fields::new().with("db_id", Json::optional_integer(d.id)).with(
        "name",
        Json::text(d.name.as_str()),
    ).with("qualified_name", Json::text(d.qualified_name.as_str())).with(
        "kind",
        Json::text(d.kind.as_str()),
    ).with("location", location_json(&d.location)).with("parent", Json::optional(&d.parent)).with(
        "signature",
        Json::optional(&d.signature),
    ).with("visibility", Json::text(d.visibility.as_str())).with(
        "is_definition",
        Json::Bool(d.is_definition),
    ).with("extra", Json::optional(&d.extra)).object();
    assert(r@->Object_0 =~= definition_value(d@)->Object_0);
    r
}

/// A reference as a value.
pub open spec fn reference_value(x: ReferenceView) -> JsonView {
    JsonView::Object(
        seq![
            ("db_id"@, json::optional_integer(x.id)),
            ("name"@, json::text_value(x.name)),
            ("kind"@, json::text_value(x.kind.name())),
            ("location"@, location_value(x.location)),
            (
                "def_id"@,
                match x.def_id {
                    Some(id) => json::count_value(id.0 as nat),
                    None => JsonView::Null,
                },
            ),
            ("context"@, json::optional_text(x.context)),
        ],
    )
}

/// A reference as a value.
pub fn reference_json(x: &Reference) -> (r: Json)
    ensures
        r@ == reference_value(x@),
{
    let def_id = match x.def_id {
        Some(id) => Json::count(id.0),
        None => Json::Null,
    };
    let r = Fields::new().with("db_id", Json::optional_integer(x.id)).with(
        "name",
        Json::text(x.name.as_str()),
    ).with("kind", Json::text(x.kind.as_str())).with("location", location_json(&x.location)).with(
        "def_id",
        def_id,
    ).with("context", Json::optional(&x.context)).object();
    assert(r@->Object_0 =~= reference_value(x@)->Object_0);
    r
}

/// A call as a value.
pub open spec fn call_value(c: CallEdgeView) -> JsonView {
    JsonView::Object(
        seq![
            ("caller_name"@, json::text_value(c.caller_name)),
            ("callee_name"@, json::text_value(c.callee_name)),
            ("location"@, location_value(c.location)),
        ],
    )
}

/// A call as a value.
pub fn call_json(c: &CallEdge) -> (r: Json)
    ensures
        r@ == call_value(c@),
{
    let r = Fields::new().with("caller_name", Json::text(c.caller_name.as_str())).with(
        "callee_name",
        Json::text(c.callee_name.as_str()),
    ).with("location", location_json(&c.location)).object();
    assert(r@->Object_0 =~= call_value(c@)->Object_0);
    r
}

/// An indexed file as a value.
pub open spec fn file_value(f: IndexedFileView) -> JsonView {
    JsonView::Object(
        seq![
            ("path"@, json::text_value(f.path)),
            ("language"@, json::text_value(f.language)),
            ("checksum"@, json::optional_text(f.checksum)),
            ("symbols_checksum"@, json::optional_text(f.symbols_checksum)),
        ],
    )
}

/// Indexed files as values.
pub open spec fn file_values(files: Seq<IndexedFileView>) -> JsonView {
    JsonView::Array(files.map_values(|f: IndexedFileView| file_value(f)))
}

/// Indexed files as values.
pub fn files_json(files: &[IndexedFile]) -> (r: Json)
    ensures
        r@ == file_values(text::views(files@)),
{
    let ghost wanted = text::views(files@).map_values(|f: IndexedFileView| file_value(f));
    let mut out: Vec<Json> = Vec::new();
    let mut i: usize = 0;
    while i < files.len()
        invariant
            wanted == text::views(files@).map_values(|f: IndexedFileView| file_value(f)),
            i <= files@.len(),
            out@.len() == i,
            forall|k: int| 0 <= k < i ==> (#[trigger] out@[k])@ == wanted[k],
        decreases files@.len() - i,
    {
        let f = &files[i];
        let value = Fields::new().with("path", Json::text(f.path.as_str())).with(
            "language",
            Json::text(f.language.as_str()),
        ).with("checksum", Json::optional(&f.checksum)).with(
            "symbols_checksum",
            Json::optional(&f.symbols_checksum),
        ).object();
        assert(value@->Object_0 =~= file_value(f@)->Object_0);
        out.push(value);
        i = i + 1;
    }
    assert(text::views(out@) =~= wanted);
    Json::array(out)
}

/// The counts of an index.
pub open spec fn summary_value(ix: IndexView) -> JsonView {
    JsonView::Object(
        seq![
            ("files"@, json::count_value(ix.files.len())),
            ("definitions"@, json::count_value(ix.definitions.len())),
            ("references"@, json::count_value(ix.references.len())),
            ("calls"@, json::count_value(ix.calls.len())),
            ("inheritance_edges"@, json::count_value(ix.inherits.len())),
        ],
    )
}

/// The counts of an index.
pub fn index_summary(index: &Index) -> (r: Json)
    ensures
        r@ == summary_value(index@),
{
    let files = index.files();
    let calls = index.calls();
    let inherits = index.inherits();
    proof {
        assert(text::views(files@).len() == files@.len());
        assert(text::views(calls@).len() == calls@.len());
        assert(text::views(inherits@).len() == inherits@.len());
    }
    let r = Fields::new().with("files", Json::count(files.len())).with(
        "definitions",
        Json::count(index.definition_count()),
    ).with("references", Json::count(index.reference_count())).with(
        "calls",
        Json::count(calls.len()),
    ).with("inheritance_edges", Json::count(inherits.len())).object();
    assert(r@->Object_0 =~= summary_value(index@)->Object_0);
    r
}

/// How well a definition meets a query.
pub open spec fn confidence(d: DefinitionView, query: Seq<char>) -> Seq<char> {
    if d.qualified_name == query {
        "exact_qualified"@
    } else if d.name == query {
        "exact_simple"@
    } else {
        "substring"@
    }
}

/// How well a definition meets a query.
pub fn definition_confidence(d: &Definition, query: &str) -> (r: &'static str)
    ensures
        r@ == confidence(d@, query@),
{
    if same(d.qualified_name.as_str(), query) {
        "exact_qualified"
    } else if same(d.name.as_str(), query) {
        "exact_simple"
    } else {
        "substring"
    }
}

/// The snippet for a hit; nothing where there are fewer snippets.
pub open spec fn snippet_at(snippets: Seq<Option<SnippetView>>, i: int) -> JsonView {
    if 0 <= i < snippets.len() {
        snippet::snippet_value(snippets[i])
    } else {
        JsonView::Null
    }
}

/// The views of snippets.
pub open spec fn snippet_views(snippets: Seq<Option<Snippet>>) -> Seq<Option<SnippetView>> {
    snippets.map_values(|s: Option<Snippet>| text::view_opt(s))
}

/// The snippet for a hit.
fn snippet_of(snippets: &Vec<Option<Snippet>>, i: usize) -> (r: Json)
    ensures
        r@ == snippet_at(snippet_views(snippets@), i as int),
{
    if i < snippets.len() {
        snippet_json(&snippets[i])
    } else {
        Json::Null
    }
}

/// A definition that was found, with its rank.
pub open spec fn definition_hit(
    d: DefinitionView,
    confidence: Seq<char>,
    rank: int,
    snippet: JsonView,
) -> JsonView {
    JsonView::Object(
        seq![
            ("rank"@, json::count_value(rank as nat)),
            ("confidence"@, json::text_value(confidence)),
            ("definition"@, definition_value(d)),
            ("snippet"@, snippet),
        ],
    )
}

/// A definition that was found.
fn make_definition_hit(d: &Definition, confidence: &str, rank: usize, snippet: Json) -> (r: Json)
    ensures
        r@ == definition_hit(d@, confidence@, rank as int, snippet@),
{
    let ghost shown = snippet@;
    let r = Fields::new().with("rank", Json::count(rank)).with(
        "confidence",
        Json::text(confidence),
    ).with("definition", definition_json(d)).with("snippet", snippet).object();
    assert(r@->Object_0 =~= definition_hit(
        d@,
        confidence@,
        rank as int,
        shown,
    )->Object_0);
    r
}

/// Definitions that were found, each with how well it meets the query.
pub open spec fn query_hits(
    defs: Seq<DefinitionView>,
    query: Seq<char>,
    snippets: Seq<Option<SnippetView>>,
) -> JsonView {
    JsonView::Array(
        Seq::new(
            defs.len(),
            |i: int|
                definition_hit(defs[i], confidence(defs[i], query), i + 1, snippet_at(snippets, i)),
        ),
    )
}

/// Definitions that were found, each with how well it meets the query.
pub fn query_hits_json(defs: &Vec<&Definition>, query: &str, snippets: &Vec<Option<Snippet>>) -> (r:
    Json)
    ensures
        r@ == query_hits(text::views(defs@), query@, snippet_views(snippets@)),
{
    let ghost wanted = query_hits(text::views(defs@), query@, snippet_views(snippets@))->Array_0;
    let mut out: Vec<Json> = Vec::new();
    let mut i: usize = 0;
    while i < defs.len()
        invariant
            wanted == query_hits(
                text::views(defs@),
                query@,
                snippet_views(snippets@),
            )->Array_0,
            i <= defs@.len(),
            out@.len() == i,
            forall|k: int| 0 <= k < i ==> (#[trigger] out@[k])@ == wanted[k],
        decreases defs@.len() - i,
    {
        let d = defs[i];
        let hit = make_definition_hit(
            d,
            definition_confidence(d, query),
            i + 1,
            snippet_of(snippets, i),
        );
        assert(text::views(defs@)[i as int] == d@);
        out.push(hit);
        i = i + 1;
    }
    assert(text::views(out@) =~= wanted);
    Json::array(out)
}

/// Definitions that were found, all in the same way.
pub open spec fn definition_hits(
    defs: Seq<DefinitionView>,
    confidence: Seq<char>,
    snippets: Seq<Option<SnippetView>>,
) -> JsonView {
    JsonView::Array(
        Seq::new(
            defs.len(),
            |i: int| definition_hit(defs[i], confidence, i + 1, snippet_at(snippets, i)),
        ),
    )
}

/// Definitions that were found, all in the same way.
pub fn definition_hits_with_confidence(
    defs: &Vec<&Definition>,
    confidence: &str,
    snippets: &Vec<Option<Snippet>>,
) -> (r: Json)
    ensures
        r@ == definition_hits(text::views(defs@), confidence@, snippet_views(snippets@)),
{
    let ghost wanted = definition_hits(
        text::views(defs@),
        confidence@,
        snippet_views(snippets@),
    )->Array_0;
    let mut out: Vec<Json> = Vec::new();
    let mut i: usize = 0;
    while i < defs.len()
        invariant
            wanted == definition_hits(
                text::views(defs@),
                confidence@,
                snippet_views(snippets@),
            )->Array_0,
            i <= defs@.len(),
            out@.len() == i,
            forall|k: int| 0 <= k < i ==> (#[trigger] out@[k])@ == wanted[k],
        decreases defs@.len() - i,
    {
        let hit = make_definition_hit(defs[i], confidence, i + 1, snippet_of(snippets, i));
        assert(text::views(defs@)[i as int] == defs@[i as int]@);
        out.push(hit);
        i = i + 1;
    }
    assert(text::views(out@) =~= wanted);
    Json::array(out)
}

/// A reference that was found, with its rank.
pub open spec fn reference_hit(x: ReferenceView, rank: int, snippet: JsonView) -> JsonView {
    JsonView::Object(
        seq![
            ("rank"@, json::count_value(rank as nat)),
            (
                "confidence"@,
                json::text_value(
                    if x.def_id is Some {
                        "resolved_unique_name"@
                    } else {
                        "unresolved_name"@
                    },
                ),
            ),
            ("reference"@, reference_value(x)),
            ("snippet"@, snippet),
        ],
    )
}

/// References that were found.
pub open spec fn reference_hits(
    uses: Seq<ReferenceView>,
    snippets: Seq<Option<SnippetView>>,
) -> JsonView {
    JsonView::Array(
        Seq::new(uses.len(), |i: int| reference_hit(uses[i], i + 1, snippet_at(snippets, i))),
    )
}

/// References that were found.
pub fn ref_hits(uses: &Vec<&Reference>, snippets: &Vec<Option<Snippet>>) -> (r: Json)
    ensures
        r@ == reference_hits(text::views(uses@), snippet_views(snippets@)),
{
    let ghost wanted = reference_hits(text::views(uses@), snippet_views(snippets@))->Array_0;
    let mut out: Vec<Json> = Vec::new();
    let mut i: usize = 0;
    while i < uses.len()
        invariant
            wanted == reference_hits(text::views(uses@), snippet_views(snippets@))->Array_0,
            i <= uses@.len(),
            out@.len() == i,
            forall|k: int| 0 <= k < i ==> (#[trigger] out@[k])@ == wanted[k],
        decreases uses@.len() - i,
    {
        let x = uses[i];
        let how = if x.def_id.is_some() {
            "resolved_unique_name"
        } else {
            "unresolved_name"
        };
        let snippet = snippet_of(snippets, i);
        let ghost shown = snippet@;
        let hit = Fields::new().with("rank", Json::count(i + 1)).with(
            "confidence",
            Json::text(how),
        ).with("reference", reference_json(x)).with("snippet", snippet).object();
        proof {
            assert(text::views(uses@)[i as int] == x@);
            assert(hit@->Object_0 =~= reference_hit(x@, i + 1, shown)->Object_0);
        }
        out.push(hit);
        i = i + 1;
    }
    assert(text::views(out@) =~= wanted);
    Json::array(out)
}

/// A call that was reached.
pub open spec fn call_hit(e: (CallEdgeView, usize), snippet: JsonView) -> JsonView {
    JsonView::Object(
        seq![
            ("depth"@, json::count_value(e.1 as nat)),
            ("confidence"@, json::text_value("structural_call"@)),
            ("call"@, call_value(e.0)),
            ("snippet"@, snippet),
        ],
    )
}

/// Calls that were reached.
pub open spec fn call_hits(
    edges: Seq<(CallEdgeView, usize)>,
    snippets: Seq<Option<SnippetView>>,
) -> JsonView {
    JsonView::Array(
        Seq::new(edges.len(), |i: int| call_hit(edges[i], snippet_at(snippets, i))),
    )
}

/// Calls that were reached.
pub fn call_hits_json(edges: &Vec<ReachedCall>, snippets: &Vec<Option<Snippet>>) -> (r: Json)
    ensures
        r@ == call_hits(text::views(edges@), snippet_views(snippets@)),
{
    let ghost wanted = call_hits(text::views(edges@), snippet_views(snippets@))->Array_0;
    let mut out: Vec<Json> = Vec::new();
    let mut i: usize = 0;
    while i < edges.len()
        invariant
            wanted == call_hits(text::views(edges@), snippet_views(snippets@))->Array_0,
            i <= edges@.len(),
            out@.len() == i,
            forall|k: int| 0 <= k < i ==> (#[trigger] out@[k])@ == wanted[k],
        decreases edges@.len() - i,
    {
        let e = &edges[i];
        let snippet = snippet_of(snippets, i);
        let ghost shown = snippet@;
        let hit = Fields::new().with("depth", Json::count(e.depth)).with(
            "confidence",
            Json::text("structural_call"),
        ).with("call", call_json(e.call)).with("snippet", snippet).object();
        proof {
            assert(text::views(edges@)[i as int] == e@);
            assert(hit@->Object_0 =~= call_hit(e@, shown)->Object_0);
        }
        out.push(hit);
        i = i + 1;
    }
    assert(text::views(out@) =~= wanted);
    Json::array(out)
}

/// Definitions with the source around them.
pub open spec fn definition_contexts(
    defs: Seq<DefinitionView>,
    snippets: Seq<Option<SnippetView>>,
) -> JsonView {
    JsonView::Array(
        Seq::new(
            defs.len(),
            |i: int|
                JsonView::Object(
                    seq![
                        ("definition"@, definition_value(defs[i])),
                        ("snippet"@, snippet_at(snippets, i)),
                    ],
                ),
        ),
    )
}

/// Definitions with the source around them.
pub fn definition_contexts_json(defs: &Vec<&Definition>, snippets: &Vec<Option<Snippet>>) -> (r:
    Json)
    ensures
        r@ == definition_contexts(text::views(defs@), snippet_views(snippets@)),
{
    let ghost wanted = definition_contexts(text::views(defs@), snippet_views(snippets@))->Array_0;
    let mut out: Vec<Json> = Vec::new();
    let mut i: usize = 0;
    while i < defs.len()
        invariant
            wanted == definition_contexts(
                text::views(defs@),
                snippet_views(snippets@),
            )->Array_0,
            i <= defs@.len(),
            out@.len() == i,
            forall|k: int| 0 <= k < i ==> (#[trigger] out@[k])@ == wanted[k],
        decreases defs@.len() - i,
    {
        let d = defs[i];
        let hit = Fields::new().with("definition", definition_json(d)).with(
            "snippet",
            snippet_of(snippets, i),
        ).object();
        proof {
            assert(text::views(defs@)[i as int] == d@);
            assert(hit@->Object_0 =~= wanted[i as int]->Object_0);
        }
        out.push(hit);
        i = i + 1;
    }
    assert(text::views(out@) =~= wanted);
    Json::array(out)
}

} // verus!
