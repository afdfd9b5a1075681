//! What the answers of the commands and the servers show.
use crate::hits;
use crate::index::IndexView;
use crate::json::JsonView;
use crate::json;
use crate::responses::ReindexReport;
use crate::responses;
use crate::server;
use crate::snippet::SnippetView;
use crate::snippet;
use crate::text;
use crate::types::{
    CallEdgeView, DefinitionView, IndexedFileView, LocationView, ReferenceView,
};
use vstd::prelude::*;
use vstd::string::*;

verus! {

/// A member is found under its name, where none behind it has the same.
pub proof fn lemma_member(members: Seq<(Seq<char>, JsonView)>, k: int)
    requires
        0 <= k < members.len(),
        forall|j: int| k < j < members.len() ==> (#[trigger] members[j]).0 != members[k].0,
    ensures
        json::member(JsonView::Object(members), members[k].0) == Some(members[k].1),
{
    lemma_member_at(members, k);
}

/// Where a member is found.
proof fn lemma_member_at(members: Seq<(Seq<char>, JsonView)>, k: int)
    requires
        0 <= k < members.len(),
        forall|j: int| k < j < members.len() ==> (#[trigger] members[j]).0 != members[k].0,
    ensures
        json::member_at(members, members[k].0) == Some(k),
    decreases members.len(),
{
    if k < members.len() - 1 {
        let short = members.drop_last();
        assert(members[members.len() - 1].0 != members[k].0);
        assert forall|j: int| k < j < short.len() implies (#[trigger] short[j]).0 != short[k].0 by {
            assert(short[j] == members[j]);
        }
        lemma_member_at(short, k);
    }
}

/// A location shows each of its parts under a name of its own.
pub proof fn law_location_value_shows_its_parts(l: LocationView)
    ensures
        json::member(hits::location_value(l), "file"@) == Some(JsonView::Str(l.file)),
        json::member(hits::location_value(l), "line"@)
            == Some(JsonView::Number(text::decimal(l.line as nat))),
        json::member(hits::location_value(l), "column"@)
            == Some(JsonView::Number(text::decimal(l.column as nat))),
        json::member(hits::location_value(l), "end_line"@)
            == Some(JsonView::Number(text::decimal(l.end_line as nat))),
        json::member(hits::location_value(l), "end_column"@)
            == Some(JsonView::Number(text::decimal(l.end_column as nat))),
{
    let m = hits::location_value(l)->Object_0;
    reveal_strlit("file");
    reveal_strlit("line");
    reveal_strlit("column");
    reveal_strlit("end_line");
    reveal_strlit("end_column");
    assert("file"@.len() == 4 && "file"@[0] == 'f');
    assert("line"@.len() == 4 && "line"@[0] == 'l');
    assert("column"@.len() == 6);
    assert("end_line"@.len() == 8);
    assert("end_column"@.len() == 10);
    assert(m.len() == 5);
    assert(m[0].0 == "file"@);
    assert(m[1].0 == "line"@);
    assert(m[2].0 == "column"@);
    assert(m[3].0 == "end_line"@);
    assert(m[4].0 == "end_column"@);
    assert forall|j: int| 0 < j < 5 implies (#[trigger] m[j]).0 != "file"@ by {
        assert(j == 1 || j == 2 || j == 3 || j == 4);
    }
    lemma_member(m, 0);
    assert forall|j: int| 1 < j < 5 implies (#[trigger] m[j]).0 != "line"@ by {
        assert(j == 2 || j == 3 || j == 4);
    }
    lemma_member(m, 1);
    assert forall|j: int| 2 < j < 5 implies (#[trigger] m[j]).0 != "column"@ by {
        assert(j == 3 || j == 4);
    }
    lemma_member(m, 2);
    assert forall|j: int| 3 < j < 5 implies (#[trigger] m[j]).0 != "end_line"@ by {
        assert(j == 4);
    }
    lemma_member(m, 3);
    lemma_member(m, 4);
}

/// A definition shows each of its parts under a name of its own.
pub proof fn law_definition_value_shows_its_parts(d: DefinitionView)
    ensures
        json::member(hits::definition_value(d), "db_id"@) == Some(json::optional_integer(d.id)),
        json::member(hits::definition_value(d), "name"@) == Some(JsonView::Str(d.name)),
        json::member(hits::definition_value(d), "qualified_name"@)
            == Some(JsonView::Str(d.qualified_name)),
        json::member(hits::definition_value(d), "kind"@) == Some(JsonView::Str(d.kind.name())),
        json::member(hits::definition_value(d), "location"@)
            == Some(hits::location_value(d.location)),
        json::member(hits::definition_value(d), "parent"@) == Some(json::optional_text(d.parent)),
        json::member(hits::definition_value(d), "signature"@)
            == Some(json::optional_text(d.signature)),
        json::member(hits::definition_value(d), "visibility"@)
            == Some(JsonView::Str(d.visibility.name())),
        json::member(hits::definition_value(d), "is_definition"@)
            == Some(JsonView::Bool(d.is_definition)),
        json::member(hits::definition_value(d), "extra"@) == Some(json::optional_text(d.extra)),
{
    let m = hits::definition_value(d)->Object_0;
    reveal_strlit("db_id");
    reveal_strlit("name");
    reveal_strlit("qualified_name");
    reveal_strlit("kind");
    reveal_strlit("location");
    reveal_strlit("parent");
    reveal_strlit("signature");
    reveal_strlit("visibility");
    reveal_strlit("is_definition");
    reveal_strlit("extra");
    assert("db_id"@.len() == 5 && "db_id"@[0] == 'd');
    assert("name"@.len() == 4 && "name"@[0] == 'n');
    assert("qualified_name"@.len() == 14);
    assert("kind"@.len() == 4 && "kind"@[0] == 'k');
    assert("location"@.len() == 8);
    assert("parent"@.len() == 6);
    assert("signature"@.len() == 9);
    assert("visibility"@.len() == 10);
    assert("is_definition"@.len() == 13);
    assert("extra"@.len() == 5 && "extra"@[0] == 'e');
    assert(m.len() == 10);
    assert(m[0].0 == "db_id"@);
    assert(m[1].0 == "name"@);
    assert(m[2].0 == "qualified_name"@);
    assert(m[3].0 == "kind"@);
    assert(m[4].0 == "location"@);
    assert(m[5].0 == "parent"@);
    assert(m[6].0 == "signature"@);
    assert(m[7].0 == "visibility"@);
    assert(m[8].0 == "is_definition"@);
    assert(m[9].0 == "extra"@);
    assert forall|j: int| 0 < j < 10 implies (#[trigger] m[j]).0 != "db_id"@ by {
        assert(j == 1 || j == 2 || j == 3 || j == 4 || j == 5 || j == 6 || j == 7 || j == 8 || j == 9);
    }
    lemma_member(m, 0);
    assert forall|j: int| 1 < j < 10 implies (#[trigger] m[j]).0 != "name"@ by {
        assert(j == 2 || j == 3 || j == 4 || j == 5 || j == 6 || j == 7 || j == 8 || j == 9);
    }
    lemma_member(m, 1);
    assert forall|j: int| 2 < j < 10 implies (#[trigger] m[j]).0 != "qualified_name"@ by {
        assert(j == 3 || j == 4 || j == 5 || j == 6 || j == 7 || j == 8 || j == 9);
    }
    lemma_member(m, 2);
    assert forall|j: int| 3 < j < 10 implies (#[trigger] m[j]).0 != "kind"@ by {
        assert(j == 4 || j == 5 || j == 6 || j == 7 || j == 8 || j == 9);
    }
    lemma_member(m, 3);
    assert forall|j: int| 4 < j < 10 implies (#[trigger] m[j]).0 != "location"@ by {
        assert(j == 5 || j == 6 || j == 7 || j == 8 || j == 9);
    }
    lemma_member(m, 4);
    assert forall|j: int| 5 < j < 10 implies (#[trigger] m[j]).0 != "parent"@ by {
        assert(j == 6 || j == 7 || j == 8 || j == 9);
    }
    lemma_member(m, 5);
    assert forall|j: int| 6 < j < 10 implies (#[trigger] m[j]).0 != "signature"@ by {
        assert(j == 7 || j == 8 || j == 9);
    }
    lemma_member(m, 6);
    assert forall|j: int| 7 < j < 10 implies (#[trigger] m[j]).0 != "visibility"@ by {
        assert(j == 8 || j == 9);
    }
    lemma_member(m, 7);
    assert forall|j: int| 8 < j < 10 implies (#[trigger] m[j]).0 != "is_definition"@ by {
        assert(j == 9);
    }
    lemma_member(m, 8);
    lemma_member(m, 9);
}

/// A reference shows each of its parts under a name of its own.
pub proof fn law_reference_value_shows_its_parts(x: ReferenceView)
    ensures
        json::member(hits::reference_value(x), "db_id"@) == Some(json::optional_integer(x.id)),
        json::member(hits::reference_value(x), "name"@) == Some(JsonView::Str(x.name)),
        json::member(hits::reference_value(x), "kind"@) == Some(JsonView::Str(x.kind.name())),
        json::member(hits::reference_value(x), "location"@)
            == Some(hits::location_value(x.location)),
        json::member(hits::reference_value(x), "def_id"@)
            == Some(
                match x.def_id { Some(id) => JsonView::Number(text::decimal(id.0 as nat)), None => JsonView::Null, },
            ),
        json::member(hits::reference_value(x), "context"@) == Some(json::optional_text(x.context)),
{
    let m = hits::reference_value(x)->Object_0;
    reveal_strlit("db_id");
    reveal_strlit("name");
    reveal_strlit("kind");
    reveal_strlit("location");
    reveal_strlit("def_id");
    reveal_strlit("context");
    assert("db_id"@.len() == 5);
    assert("name"@.len() == 4 && "name"@[0] == 'n');
    assert("kind"@.len() == 4 && "kind"@[0] == 'k');
    assert("location"@.len() == 8);
    assert("def_id"@.len() == 6);
    assert("context"@.len() == 7);
    assert(m.len() == 6);
    assert(m[0].0 == "db_id"@);
    assert(m[1].0 == "name"@);
    assert(m[2].0 == "kind"@);
    assert(m[3].0 == "location"@);
    assert(m[4].0 == "def_id"@);
    assert(m[5].0 == "context"@);
    assert forall|j: int| 0 < j < 6 implies (#[trigger] m[j]).0 != "db_id"@ by {
        assert(j == 1 || j == 2 || j == 3 || j == 4 || j == 5);
    }
    lemma_member(m, 0);
    assert forall|j: int| 1 < j < 6 implies (#[trigger] m[j]).0 != "name"@ by {
        assert(j == 2 || j == 3 || j == 4 || j == 5);
    }
    lemma_member(m, 1);
    assert forall|j: int| 2 < j < 6 implies (#[trigger] m[j]).0 != "kind"@ by {
        assert(j == 3 || j == 4 || j == 5);
    }
    lemma_member(m, 2);
    assert forall|j: int| 3 < j < 6 implies (#[trigger] m[j]).0 != "location"@ by {
        assert(j == 4 || j == 5);
    }
    lemma_member(m, 3);
    assert forall|j: int| 4 < j < 6 implies (#[trigger] m[j]).0 != "def_id"@ by {
        assert(j == 5);
    }
    lemma_member(m, 4);
    lemma_member(m, 5);
}

/// A call shows each of its parts under a name of its own.
pub proof fn law_call_value_shows_its_parts(c: CallEdgeView)
    ensures
        json::member(hits::call_value(c), "caller_name"@) == Some(JsonView::Str(c.caller_name)),
        json::member(hits::call_value(c), "callee_name"@) == Some(JsonView::Str(c.callee_name)),
        json::member(hits::call_value(c), "location"@) == Some(hits::location_value(c.location)),
{
    let m = hits::call_value(c)->Object_0;
    reveal_strlit("caller_name");
    reveal_strlit("callee_name");
    reveal_strlit("location");
    assert("caller_name"@.len() == 11 && "caller_name"@[5] == 'r');
    assert("callee_name"@.len() == 11 && "callee_name"@[5] == 'e');
    assert("location"@.len() == 8);
    assert(m.len() == 3);
    assert(m[0].0 == "caller_name"@);
    assert(m[1].0 == "callee_name"@);
    assert(m[2].0 == "location"@);
    assert forall|j: int| 0 < j < 3 implies (#[trigger] m[j]).0 != "caller_name"@ by {
        assert(j == 1 || j == 2);
    }
    lemma_member(m, 0);
    assert forall|j: int| 1 < j < 3 implies (#[trigger] m[j]).0 != "callee_name"@ by {
        assert(j == 2);
    }
    lemma_member(m, 1);
    lemma_member(m, 2);
}

/// An indexed file shows each of its parts under a name of its own.
pub proof fn law_file_value_shows_its_parts(f: IndexedFileView)
    ensures
        json::member(hits::file_value(f), "path"@) == Some(JsonView::Str(f.path)),
        json::member(hits::file_value(f), "language"@) == Some(JsonView::Str(f.language)),
        json::member(hits::file_value(f), "checksum"@) == Some(json::optional_text(f.checksum)),
        json::member(hits::file_value(f), "symbols_checksum"@)
            == Some(json::optional_text(f.symbols_checksum)),
{
    let m = hits::file_value(f)->Object_0;
    reveal_strlit("path");
    reveal_strlit("language");
    reveal_strlit("checksum");
    reveal_strlit("symbols_checksum");
    assert("path"@.len() == 4);
    assert("language"@.len() == 8 && "language"@[0] == 'l');
    assert("checksum"@.len() == 8 && "checksum"@[0] == 'c');
    assert("symbols_checksum"@.len() == 16);
    assert(m.len() == 4);
    assert(m[0].0 == "path"@);
    assert(m[1].0 == "language"@);
    assert(m[2].0 == "checksum"@);
    assert(m[3].0 == "symbols_checksum"@);
    assert forall|j: int| 0 < j < 4 implies (#[trigger] m[j]).0 != "path"@ by {
        assert(j == 1 || j == 2 || j == 3);
    }
    lemma_member(m, 0);
    assert forall|j: int| 1 < j < 4 implies (#[trigger] m[j]).0 != "language"@ by {
        assert(j == 2 || j == 3);
    }
    lemma_member(m, 1);
    assert forall|j: int| 2 < j < 4 implies (#[trigger] m[j]).0 != "checksum"@ by {
        assert(j == 3);
    }
    lemma_member(m, 2);
    lemma_member(m, 3);
}

/// The counts of an index shows each of its parts under a name of its own.
pub proof fn law_summary_value_shows_its_parts(ix: IndexView)
    ensures
        json::member(hits::summary_value(ix), "files"@)
            == Some(JsonView::Number(text::decimal(ix.files.len()))),
        json::member(hits::summary_value(ix), "definitions"@)
            == Some(JsonView::Number(text::decimal(ix.definitions.len()))),
        json::member(hits::summary_value(ix), "references"@)
            == Some(JsonView::Number(text::decimal(ix.references.len()))),
        json::member(hits::summary_value(ix), "calls"@)
            == Some(JsonView::Number(text::decimal(ix.calls.len()))),
        json::member(hits::summary_value(ix), "inheritance_edges"@)
            == Some(JsonView::Number(text::decimal(ix.inherits.len()))),
{
    let m = hits::summary_value(ix)->Object_0;
    reveal_strlit("files");
    reveal_strlit("definitions");
    reveal_strlit("references");
    reveal_strlit("calls");
    reveal_strlit("inheritance_edges");
    assert("files"@.len() == 5 && "files"@[0] == 'f');
    assert("definitions"@.len() == 11);
    assert("references"@.len() == 10);
    assert("calls"@.len() == 5 && "calls"@[0] == 'c');
    assert("inheritance_edges"@.len() == 17);
    assert(m.len() == 5);
    assert(m[0].0 == "files"@);
    assert(m[1].0 == "definitions"@);
    assert(m[2].0 == "references"@);
    assert(m[3].0 == "calls"@);
    assert(m[4].0 == "inheritance_edges"@);
    assert forall|j: int| 0 < j < 5 implies (#[trigger] m[j]).0 != "files"@ by {
        assert(j == 1 || j == 2 || j == 3 || j == 4);
    }
    lemma_member(m, 0);
    assert forall|j: int| 1 < j < 5 implies (#[trigger] m[j]).0 != "definitions"@ by {
        assert(j == 2 || j == 3 || j == 4);
    }
    lemma_member(m, 1);
    assert forall|j: int| 2 < j < 5 implies (#[trigger] m[j]).0 != "references"@ by {
        assert(j == 3 || j == 4);
    }
    lemma_member(m, 2);
    assert forall|j: int| 3 < j < 5 implies (#[trigger] m[j]).0 != "calls"@ by {
        assert(j == 4);
    }
    lemma_member(m, 3);
    lemma_member(m, 4);
}

/// A definition that was found shows each of its parts under a name of its own.
pub proof fn law_definition_hit_shows_its_parts(
    d: DefinitionView,
    confidence: Seq<char>,
    rank: int,
    snippet: JsonView,
)
    ensures
        json::member(hits::definition_hit(d, confidence, rank, snippet), "rank"@)
            == Some(JsonView::Number(text::decimal(rank as nat))),
        json::member(hits::definition_hit(d, confidence, rank, snippet), "confidence"@)
            == Some(JsonView::Str(confidence)),
        json::member(hits::definition_hit(d, confidence, rank, snippet), "definition"@)
            == Some(hits::definition_value(d)),
        json::member(hits::definition_hit(d, confidence, rank, snippet), "snippet"@)
            == Some(snippet),
{
    let m = hits::definition_hit(d, confidence, rank, snippet)->Object_0;
    reveal_strlit("rank");
    reveal_strlit("confidence");
    reveal_strlit("definition");
    reveal_strlit("snippet");
    assert("rank"@.len() == 4);
    assert("confidence"@.len() == 10 && "confidence"@[0] == 'c');
    assert("definition"@.len() == 10 && "definition"@[0] == 'd');
    assert("snippet"@.len() == 7);
    assert(m.len() == 4);
    assert(m[0].0 == "rank"@);
    assert(m[1].0 == "confidence"@);
    assert(m[2].0 == "definition"@);
    assert(m[3].0 == "snippet"@);
    assert forall|j: int| 0 < j < 4 implies (#[trigger] m[j]).0 != "rank"@ by {
        assert(j == 1 || j == 2 || j == 3);
    }
    lemma_member(m, 0);
    assert forall|j: int| 1 < j < 4 implies (#[trigger] m[j]).0 != "confidence"@ by {
        assert(j == 2 || j == 3);
    }
    lemma_member(m, 1);
    assert forall|j: int| 2 < j < 4 implies (#[trigger] m[j]).0 != "definition"@ by {
        assert(j == 3);
    }
    lemma_member(m, 2);
    lemma_member(m, 3);
}

/// A reference that was found shows each of its parts under a name of its own.
pub proof fn law_reference_hit_shows_its_parts(x: ReferenceView, rank: int, snippet: JsonView)
    ensures
        json::member(hits::reference_hit(x, rank, snippet), "rank"@)
            == Some(JsonView::Number(text::decimal(rank as nat))),
        json::member(hits::reference_hit(x, rank, snippet), "confidence"@)
            == Some(
                JsonView::Str(if x.def_id is Some { "resolved_unique_name"@ } else { "unresolved_name"@ }),
            ),
        json::member(hits::reference_hit(x, rank, snippet), "reference"@)
            == Some(hits::reference_value(x)),
        json::member(hits::reference_hit(x, rank, snippet), "snippet"@) == Some(snippet),
{
    let m = hits::reference_hit(x, rank, snippet)->Object_0;
    reveal_strlit("rank");
    reveal_strlit("confidence");
    reveal_strlit("reference");
    reveal_strlit("snippet");
    assert("rank"@.len() == 4);
    assert("confidence"@.len() == 10);
    assert("reference"@.len() == 9);
    assert("snippet"@.len() == 7);
    assert(m.len() == 4);
    assert(m[0].0 == "rank"@);
    assert(m[1].0 == "confidence"@);
    assert(m[2].0 == "reference"@);
    assert(m[3].0 == "snippet"@);
    assert forall|j: int| 0 < j < 4 implies (#[trigger] m[j]).0 != "rank"@ by {
        assert(j == 1 || j == 2 || j == 3);
    }
    lemma_member(m, 0);
    assert forall|j: int| 1 < j < 4 implies (#[trigger] m[j]).0 != "confidence"@ by {
        assert(j == 2 || j == 3);
    }
    lemma_member(m, 1);
    assert forall|j: int| 2 < j < 4 implies (#[trigger] m[j]).0 != "reference"@ by {
        assert(j == 3);
    }
    lemma_member(m, 2);
    lemma_member(m, 3);
}

/// A call that was reached shows each of its parts under a name of its own.
pub proof fn law_call_hit_shows_its_parts(e: (CallEdgeView, usize), snippet: JsonView)
    ensures
        json::member(hits::call_hit(e, snippet), "depth"@)
            == Some(JsonView::Number(text::decimal(e.1 as nat))),
        json::member(hits::call_hit(e, snippet), "confidence"@)
            == Some(JsonView::Str("structural_call"@)),
        json::member(hits::call_hit(e, snippet), "call"@) == Some(hits::call_value(e.0)),
        json::member(hits::call_hit(e, snippet), "snippet"@) == Some(snippet),
{
    let m = hits::call_hit(e, snippet)->Object_0;
    reveal_strlit("depth");
    reveal_strlit("confidence");
    reveal_strlit("call");
    reveal_strlit("snippet");
    assert("depth"@.len() == 5);
    assert("confidence"@.len() == 10);
    assert("call"@.len() == 4);
    assert("snippet"@.len() == 7);
    assert(m.len() == 4);
    assert(m[0].0 == "depth"@);
    assert(m[1].0 == "confidence"@);
    assert(m[2].0 == "call"@);
    assert(m[3].0 == "snippet"@);
    assert forall|j: int| 0 < j < 4 implies (#[trigger] m[j]).0 != "depth"@ by {
        assert(j == 1 || j == 2 || j == 3);
    }
    lemma_member(m, 0);
    assert forall|j: int| 1 < j < 4 implies (#[trigger] m[j]).0 != "confidence"@ by {
        assert(j == 2 || j == 3);
    }
    lemma_member(m, 1);
    assert forall|j: int| 2 < j < 4 implies (#[trigger] m[j]).0 != "call"@ by {
        assert(j == 3);
    }
    lemma_member(m, 2);
    lemma_member(m, 3);
}

/// What `stats` answers shows each of its parts under a name of its own.
pub proof fn law_stats_answer_shows_its_parts(db: Seq<char>, ix: IndexView, reindex: ReindexReport)
    ensures
        json::member(responses::stats_answer(db, ix, reindex), "ok"@) == Some(JsonView::Bool(true)),
        json::member(responses::stats_answer(db, ix, reindex), "command"@)
            == Some(JsonView::Str("stats"@)),
        json::member(responses::stats_answer(db, ix, reindex), "db"@) == Some(JsonView::Str(db)),
        json::member(responses::stats_answer(db, ix, reindex), "summary"@)
            == Some(hits::summary_value(ix)),
        json::member(responses::stats_answer(db, ix, reindex), "files"@)
            == Some(hits::file_values(ix.files)),
        json::member(responses::stats_answer(db, ix, reindex), "reindex"@)
            == Some(responses::reindex_value(reindex)),
{
    let m = responses::stats_answer(db, ix, reindex)->Object_0;
    reveal_strlit("ok");
    reveal_strlit("command");
    reveal_strlit("db");
    reveal_strlit("summary");
    reveal_strlit("files");
    reveal_strlit("reindex");
    assert("ok"@.len() == 2 && "ok"@[0] == 'o');
    assert("command"@.len() == 7 && "command"@[0] == 'c');
    assert("db"@.len() == 2 && "db"@[0] == 'd');
    assert("summary"@.len() == 7 && "summary"@[0] == 's');
    assert("files"@.len() == 5);
    assert("reindex"@.len() == 7 && "reindex"@[0] == 'r');
    assert(m.len() == 6);
    assert(m[0].0 == "ok"@);
    assert(m[1].0 == "command"@);
    assert(m[2].0 == "db"@);
    assert(m[3].0 == "summary"@);
    assert(m[4].0 == "files"@);
    assert(m[5].0 == "reindex"@);
    assert forall|j: int| 0 < j < 6 implies (#[trigger] m[j]).0 != "ok"@ by {
        assert(j == 1 || j == 2 || j == 3 || j == 4 || j == 5);
    }
    lemma_member(m, 0);
    assert forall|j: int| 1 < j < 6 implies (#[trigger] m[j]).0 != "command"@ by {
        assert(j == 2 || j == 3 || j == 4 || j == 5);
    }
    lemma_member(m, 1);
    assert forall|j: int| 2 < j < 6 implies (#[trigger] m[j]).0 != "db"@ by {
        assert(j == 3 || j == 4 || j == 5);
    }
    lemma_member(m, 2);
    assert forall|j: int| 3 < j < 6 implies (#[trigger] m[j]).0 != "summary"@ by {
        assert(j == 4 || j == 5);
    }
    lemma_member(m, 3);
    assert forall|j: int| 4 < j < 6 implies (#[trigger] m[j]).0 != "files"@ by {
        assert(j == 5);
    }
    lemma_member(m, 4);
    lemma_member(m, 5);
}

/// What `find` answers shows each of its parts under a name of its own.
pub proof fn law_find_answer_shows_its_parts(
    db: Seq<char>,
    query: Seq<char>,
    defs: Seq<DefinitionView>,
    snippets: Seq<Option<SnippetView>>,
    reindex: ReindexReport,
)
    ensures
        json::member(responses::find_answer(db, query, defs, snippets, reindex), "ok"@)
            == Some(JsonView::Bool(true)),
        json::member(responses::find_answer(db, query, defs, snippets, reindex), "command"@)
            == Some(JsonView::Str("find"@)),
        json::member(responses::find_answer(db, query, defs, snippets, reindex), "db"@)
            == Some(JsonView::Str(db)),
        json::member(responses::find_answer(db, query, defs, snippets, reindex), "query"@)
            == Some(JsonView::Str(query)),
        json::member(
            responses::find_answer(db, query, defs, snippets, reindex),
            "result_count"@,
        ) == Some(JsonView::Number(text::decimal(defs.len()))),
        json::member(responses::find_answer(db, query, defs, snippets, reindex), "results"@)
            == Some(hits::query_hits(defs, query, snippets)),
        json::member(responses::find_answer(db, query, defs, snippets, reindex), "notes"@)
            == Some(JsonView::Array(seq![JsonView::Str(responses::FIND_NOTE@)])),
        json::member(responses::find_answer(db, query, defs, snippets, reindex), "reindex"@)
            == Some(responses::reindex_value(reindex)),
{
    let m = responses::find_answer(db, query, defs, snippets, reindex)->Object_0;
    reveal_strlit("ok");
    reveal_strlit("command");
    reveal_strlit("db");
    reveal_strlit("query");
    reveal_strlit("result_count");
    reveal_strlit("results");
    reveal_strlit("notes");
    reveal_strlit("reindex");
    assert("ok"@.len() == 2 && "ok"@[0] == 'o');
    assert("command"@.len() == 7 && "command"@[0] == 'c');
    assert("db"@.len() == 2 && "db"@[0] == 'd');
    assert("query"@.len() == 5 && "query"@[0] == 'q');
    assert("result_count"@.len() == 12);
    assert("results"@.len() == 7 && "results"@[0] == 'r' && "results"@[2] == 's');
    assert("notes"@.len() == 5 && "notes"@[0] == 'n');
    assert("reindex"@.len() == 7 && "reindex"@[0] == 'r' && "reindex"@[2] == 'i');
    assert(m.len() == 8);
    assert(m[0].0 == "ok"@);
    assert(m[1].0 == "command"@);
    assert(m[2].0 == "db"@);
    assert(m[3].0 == "query"@);
    assert(m[4].0 == "result_count"@);
    assert(m[5].0 == "results"@);
    assert(m[6].0 == "notes"@);
    assert(m[7].0 == "reindex"@);
    assert forall|j: int| 0 < j < 8 implies (#[trigger] m[j]).0 != "ok"@ by {
        assert(j == 1 || j == 2 || j == 3 || j == 4 || j == 5 || j == 6 || j == 7);
    }
    lemma_member(m, 0);
    assert forall|j: int| 1 < j < 8 implies (#[trigger] m[j]).0 != "command"@ by {
        assert(j == 2 || j == 3 || j == 4 || j == 5 || j == 6 || j == 7);
    }
    lemma_member(m, 1);
    assert forall|j: int| 2 < j < 8 implies (#[trigger] m[j]).0 != "db"@ by {
        assert(j == 3 || j == 4 || j == 5 || j == 6 || j == 7);
    }
    lemma_member(m, 2);
    assert forall|j: int| 3 < j < 8 implies (#[trigger] m[j]).0 != "query"@ by {
        assert(j == 4 || j == 5 || j == 6 || j == 7);
    }
    lemma_member(m, 3);
    assert forall|j: int| 4 < j < 8 implies (#[trigger] m[j]).0 != "result_count"@ by {
        assert(j == 5 || j == 6 || j == 7);
    }
    lemma_member(m, 4);
    assert forall|j: int| 5 < j < 8 implies (#[trigger] m[j]).0 != "results"@ by {
        assert(j == 6 || j == 7);
    }
    lemma_member(m, 5);
    assert forall|j: int| 6 < j < 8 implies (#[trigger] m[j]).0 != "notes"@ by {
        assert(j == 7);
    }
    lemma_member(m, 6);
    lemma_member(m, 7);
}

/// What a query answers with a list shows each of its parts under a name of its own.
pub proof fn law_list_answer_shows_its_parts(
    command: Seq<char>,
    db: Seq<char>,
    query: Seq<char>,
    count: nat,
    results: JsonView,
    reindex: ReindexReport,
)
    ensures
        json::member(responses::list_answer(command, db, query, count, results, reindex), "ok"@)
            == Some(JsonView::Bool(true)),
        json::member(
            responses::list_answer(command, db, query, count, results, reindex),
            "command"@,
        ) == Some(JsonView::Str(command)),
        json::member(responses::list_answer(command, db, query, count, results, reindex), "db"@)
            == Some(JsonView::Str(db)),
        json::member(
            responses::list_answer(command, db, query, count, results, reindex),
            "query"@,
        ) == Some(JsonView::Str(query)),
        json::member(
            responses::list_answer(command, db, query, count, results, reindex),
            "result_count"@,
        ) == Some(JsonView::Number(text::decimal(count))),
        json::member(
            responses::list_answer(command, db, query, count, results, reindex),
            "results"@,
        ) == Some(results),
        json::member(
            responses::list_answer(command, db, query, count, results, reindex),
            "reindex"@,
        ) == Some(responses::reindex_value(reindex)),
{
    let m = responses::list_answer(command, db, query, count, results, reindex)->Object_0;
    reveal_strlit("ok");
    reveal_strlit("command");
    reveal_strlit("db");
    reveal_strlit("query");
    reveal_strlit("result_count");
    reveal_strlit("results");
    reveal_strlit("reindex");
    assert("ok"@.len() == 2 && "ok"@[0] == 'o');
    assert("command"@.len() == 7 && "command"@[0] == 'c');
    assert("db"@.len() == 2 && "db"@[0] == 'd');
    assert("query"@.len() == 5);
    assert("result_count"@.len() == 12);
    assert("results"@.len() == 7 && "results"@[0] == 'r' && "results"@[2] == 's');
    assert("reindex"@.len() == 7 && "reindex"@[0] == 'r' && "reindex"@[2] == 'i');
    assert(m.len() == 7);
    assert(m[0].0 == "ok"@);
    assert(m[1].0 == "command"@);
    assert(m[2].0 == "db"@);
    assert(m[3].0 == "query"@);
    assert(m[4].0 == "result_count"@);
    assert(m[5].0 == "results"@);
    assert(m[6].0 == "reindex"@);
    assert forall|j: int| 0 < j < 7 implies (#[trigger] m[j]).0 != "ok"@ by {
        assert(j == 1 || j == 2 || j == 3 || j == 4 || j == 5 || j == 6);
    }
    lemma_member(m, 0);
    assert forall|j: int| 1 < j < 7 implies (#[trigger] m[j]).0 != "command"@ by {
        assert(j == 2 || j == 3 || j == 4 || j == 5 || j == 6);
    }
    lemma_member(m, 1);
    assert forall|j: int| 2 < j < 7 implies (#[trigger] m[j]).0 != "db"@ by {
        assert(j == 3 || j == 4 || j == 5 || j == 6);
    }
    lemma_member(m, 2);
    assert forall|j: int| 3 < j < 7 implies (#[trigger] m[j]).0 != "query"@ by {
        assert(j == 4 || j == 5 || j == 6);
    }
    lemma_member(m, 3);
    assert forall|j: int| 4 < j < 7 implies (#[trigger] m[j]).0 != "result_count"@ by {
        assert(j == 5 || j == 6);
    }
    lemma_member(m, 4);
    assert forall|j: int| 5 < j < 7 implies (#[trigger] m[j]).0 != "results"@ by {
        assert(j == 6);
    }
    lemma_member(m, 5);
    lemma_member(m, 6);
}

/// What `hierarchy` answers shows each of its parts under a name of its own.
pub proof fn law_hierarchy_answer_shows_its_parts(
    db: Seq<char>,
    query: Seq<char>,
    bases: Seq<DefinitionView>,
    base_snippets: Seq<Option<SnippetView>>,
    derived: Seq<DefinitionView>,
    derived_snippets: Seq<Option<SnippetView>>,
    reindex: ReindexReport,
)
    ensures
        json::member(
            responses::hierarchy_answer(db, query, bases, base_snippets, derived, derived_snippets, reindex),
            "ok"@,
        ) == Some(JsonView::Bool(true)),
        json::member(
            responses::hierarchy_answer(db, query, bases, base_snippets, derived, derived_snippets, reindex),
            "command"@,
        ) == Some(JsonView::Str("hierarchy"@)),
        json::member(
            responses::hierarchy_answer(db, query, bases, base_snippets, derived, derived_snippets, reindex),
            "db"@,
        ) == Some(JsonView::Str(db)),
        json::member(
            responses::hierarchy_answer(db, query, bases, base_snippets, derived, derived_snippets, reindex),
            "query"@,
        ) == Some(JsonView::Str(query)),
        json::member(
            responses::hierarchy_answer(db, query, bases, base_snippets, derived, derived_snippets, reindex),
            "bases"@,
        ) == Some(hits::definition_hits(bases, "inheritance_edge"@, base_snippets)),
        json::member(
            responses::hierarchy_answer(db, query, bases, base_snippets, derived, derived_snippets, reindex),
            "derived"@,
        ) == Some(hits::definition_hits(derived, "inheritance_edge"@, derived_snippets)),
        json::member(
            responses::hierarchy_answer(db, query, bases, base_snippets, derived, derived_snippets, reindex),
            "reindex"@,
        ) == Some(responses::reindex_value(reindex)),
{
    let m = responses::hierarchy_answer(db, query, bases, base_snippets, derived, derived_snippets, reindex)->Object_0;
    reveal_strlit("ok");
    reveal_strlit("command");
    reveal_strlit("db");
    reveal_strlit("query");
    reveal_strlit("bases");
    reveal_strlit("derived");
    reveal_strlit("reindex");
    assert("ok"@.len() == 2 && "ok"@[0] == 'o');
    assert("command"@.len() == 7 && "command"@[0] == 'c');
    assert("db"@.len() == 2 && "db"@[0] == 'd');
    assert("query"@.len() == 5 && "query"@[0] == 'q');
    assert("bases"@.len() == 5 && "bases"@[0] == 'b');
    assert("derived"@.len() == 7 && "derived"@[0] == 'd');
    assert("reindex"@.len() == 7 && "reindex"@[0] == 'r');
    assert(m.len() == 7);
    assert(m[0].0 == "ok"@);
    assert(m[1].0 == "command"@);
    assert(m[2].0 == "db"@);
    assert(m[3].0 == "query"@);
    assert(m[4].0 == "bases"@);
    assert(m[5].0 == "derived"@);
    assert(m[6].0 == "reindex"@);
    assert forall|j: int| 0 < j < 7 implies (#[trigger] m[j]).0 != "ok"@ by {
        assert(j == 1 || j == 2 || j == 3 || j == 4 || j == 5 || j == 6);
    }
    lemma_member(m, 0);
    assert forall|j: int| 1 < j < 7 implies (#[trigger] m[j]).0 != "command"@ by {
        assert(j == 2 || j == 3 || j == 4 || j == 5 || j == 6);
    }
    lemma_member(m, 1);
    assert forall|j: int| 2 < j < 7 implies (#[trigger] m[j]).0 != "db"@ by {
        assert(j == 3 || j == 4 || j == 5 || j == 6);
    }
    lemma_member(m, 2);
    assert forall|j: int| 3 < j < 7 implies (#[trigger] m[j]).0 != "query"@ by {
        assert(j == 4 || j == 5 || j == 6);
    }
    lemma_member(m, 3);
    assert forall|j: int| 4 < j < 7 implies (#[trigger] m[j]).0 != "bases"@ by {
        assert(j == 5 || j == 6);
    }
    lemma_member(m, 4);
    assert forall|j: int| 5 < j < 7 implies (#[trigger] m[j]).0 != "derived"@ by {
        assert(j == 6);
    }
    lemma_member(m, 5);
    lemma_member(m, 6);
}

/// What `expand` answers shows each of its parts under a name of its own.
pub proof fn law_expand_answer_shows_its_parts(
    db: Seq<char>,
    seed: Seq<char>,
    direction: Seq<char>,
    depth: usize,
    edges: Seq<(CallEdgeView, usize)>,
    snippets: Seq<Option<SnippetView>>,
    reindex: ReindexReport,
)
    ensures
        json::member(
            responses::expand_answer(db, seed, direction, depth, edges, snippets, reindex),
            "ok"@,
        ) == Some(JsonView::Bool(true)),
        json::member(
            responses::expand_answer(db, seed, direction, depth, edges, snippets, reindex),
            "command"@,
        ) == Some(JsonView::Str("expand"@)),
        json::member(
            responses::expand_answer(db, seed, direction, depth, edges, snippets, reindex),
            "db"@,
        ) == Some(JsonView::Str(db)),
        json::member(
            responses::expand_answer(db, seed, direction, depth, edges, snippets, reindex),
            "seed"@,
        ) == Some(JsonView::Str(seed)),
        json::member(
            responses::expand_answer(db, seed, direction, depth, edges, snippets, reindex),
            "direction"@,
        ) == Some(JsonView::Str(direction)),
        json::member(
            responses::expand_answer(db, seed, direction, depth, edges, snippets, reindex),
            "depth"@,
        ) == Some(JsonView::Number(text::decimal(depth as nat))),
        json::member(
            responses::expand_answer(db, seed, direction, depth, edges, snippets, reindex),
            "edge_count"@,
        ) == Some(JsonView::Number(text::decimal(edges.len()))),
        json::member(
            responses::expand_answer(db, seed, direction, depth, edges, snippets, reindex),
            "edges"@,
        ) == Some(hits::call_hits(edges, snippets)),
        json::member(
            responses::expand_answer(db, seed, direction, depth, edges, snippets, reindex),
            "notes"@,
        ) == Some(JsonView::Array(seq![JsonView::Str(responses::EXPAND_NOTE@)])),
        json::member(
            responses::expand_answer(db, seed, direction, depth, edges, snippets, reindex),
            "reindex"@,
        ) == Some(responses::reindex_value(reindex)),
{
    let m = responses::expand_answer(db, seed, direction, depth, edges, snippets, reindex)->Object_0;
    reveal_strlit("ok");
    reveal_strlit("command");
    reveal_strlit("db");
    reveal_strlit("seed");
    reveal_strlit("direction");
    reveal_strlit("depth");
    reveal_strlit("edge_count");
    reveal_strlit("edges");
    reveal_strlit("notes");
    reveal_strlit("reindex");
    assert("ok"@.len() == 2 && "ok"@[0] == 'o');
    assert("command"@.len() == 7 && "command"@[0] == 'c');
    assert("db"@.len() == 2 && "db"@[0] == 'd');
    assert("seed"@.len() == 4);
    assert("direction"@.len() == 9);
    assert("depth"@.len() == 5 && "depth"@[0] == 'd');
    assert("edge_count"@.len() == 10);
    assert("edges"@.len() == 5 && "edges"@[0] == 'e');
    assert("notes"@.len() == 5 && "notes"@[0] == 'n');
    assert("reindex"@.len() == 7 && "reindex"@[0] == 'r');
    assert(m.len() == 10);
    assert(m[0].0 == "ok"@);
    assert(m[1].0 == "command"@);
    assert(m[2].0 == "db"@);
    assert(m[3].0 == "seed"@);
    assert(m[4].0 == "direction"@);
    assert(m[5].0 == "depth"@);
    assert(m[6].0 == "edge_count"@);
    assert(m[7].0 == "edges"@);
    assert(m[8].0 == "notes"@);
    assert(m[9].0 == "reindex"@);
    assert forall|j: int| 0 < j < 10 implies (#[trigger] m[j]).0 != "ok"@ by {
        assert(j == 1 || j == 2 || j == 3 || j == 4 || j == 5 || j == 6 || j == 7 || j == 8 || j == 9);
    }
    lemma_member(m, 0);
    assert forall|j: int| 1 < j < 10 implies (#[trigger] m[j]).0 != "command"@ by {
        assert(j == 2 || j == 3 || j == 4 || j == 5 || j == 6 || j == 7 || j == 8 || j == 9);
    }
    lemma_member(m, 1);
    assert forall|j: int| 2 < j < 10 implies (#[trigger] m[j]).0 != "db"@ by {
        assert(j == 3 || j == 4 || j == 5 || j == 6 || j == 7 || j == 8 || j == 9);
    }
    lemma_member(m, 2);
    assert forall|j: int| 3 < j < 10 implies (#[trigger] m[j]).0 != "seed"@ by {
        assert(j == 4 || j == 5 || j == 6 || j == 7 || j == 8 || j == 9);
    }
    lemma_member(m, 3);
    assert forall|j: int| 4 < j < 10 implies (#[trigger] m[j]).0 != "direction"@ by {
        assert(j == 5 || j == 6 || j == 7 || j == 8 || j == 9);
    }
    lemma_member(m, 4);
    assert forall|j: int| 5 < j < 10 implies (#[trigger] m[j]).0 != "depth"@ by {
        assert(j == 6 || j == 7 || j == 8 || j == 9);
    }
    lemma_member(m, 5);
    assert forall|j: int| 6 < j < 10 implies (#[trigger] m[j]).0 != "edge_count"@ by {
        assert(j == 7 || j == 8 || j == 9);
    }
    lemma_member(m, 6);
    assert forall|j: int| 7 < j < 10 implies (#[trigger] m[j]).0 != "edges"@ by {
        assert(j == 8 || j == 9);
    }
    lemma_member(m, 7);
    assert forall|j: int| 8 < j < 10 implies (#[trigger] m[j]).0 != "notes"@ by {
        assert(j == 9);
    }
    lemma_member(m, 8);
    lemma_member(m, 9);
}

/// What `sql` answers shows each of its parts under a name of its own.
pub proof fn law_sql_answer_shows_its_parts(
    db: Seq<char>,
    columns: Seq<Seq<char>>,
    rows: Seq<JsonView>,
    reindex: ReindexReport,
)
    ensures
        json::member(responses::sql_answer(db, columns, rows, reindex), "ok"@)
            == Some(JsonView::Bool(true)),
        json::member(responses::sql_answer(db, columns, rows, reindex), "command"@)
            == Some(JsonView::Str("sql"@)),
        json::member(responses::sql_answer(db, columns, rows, reindex), "db"@)
            == Some(JsonView::Str(db)),
        json::member(responses::sql_answer(db, columns, rows, reindex), "columns"@)
            == Some(JsonView::Array(columns.map_values(|s: Seq<char>| JsonView::Str(s)))),
        json::member(responses::sql_answer(db, columns, rows, reindex), "row_count"@)
            == Some(JsonView::Number(text::decimal(rows.len()))),
        json::member(responses::sql_answer(db, columns, rows, reindex), "rows"@)
            == Some(JsonView::Array(rows)),
        json::member(responses::sql_answer(db, columns, rows, reindex), "reindex"@)
            == Some(responses::reindex_value(reindex)),
{
    assert(columns.map_values(|s: Seq<char>| JsonView::Str(s)) =~= columns.map_values(
        |s: Seq<char>| json::text_value(s),
    ));
    let m = responses::sql_answer(db, columns, rows, reindex)->Object_0;
    reveal_strlit("ok");
    reveal_strlit("command");
    reveal_strlit("db");
    reveal_strlit("columns");
    reveal_strlit("row_count");
    reveal_strlit("rows");
    reveal_strlit("reindex");
    assert("ok"@.len() == 2 && "ok"@[0] == 'o');
    assert("command"@.len() == 7 && "command"@[0] == 'c' && "command"@[2] == 'm');
    assert("db"@.len() == 2 && "db"@[0] == 'd');
    assert("columns"@.len() == 7 && "columns"@[0] == 'c' && "columns"@[2] == 'l');
    assert("row_count"@.len() == 9);
    assert("rows"@.len() == 4);
    assert("reindex"@.len() == 7 && "reindex"@[0] == 'r');
    assert(m.len() == 7);
    assert(m[0].0 == "ok"@);
    assert(m[1].0 == "command"@);
    assert(m[2].0 == "db"@);
    assert(m[3].0 == "columns"@);
    assert(m[4].0 == "row_count"@);
    assert(m[5].0 == "rows"@);
    assert(m[6].0 == "reindex"@);
    assert forall|j: int| 0 < j < 7 implies (#[trigger] m[j]).0 != "ok"@ by {
        assert(j == 1 || j == 2 || j == 3 || j == 4 || j == 5 || j == 6);
    }
    lemma_member(m, 0);
    assert forall|j: int| 1 < j < 7 implies (#[trigger] m[j]).0 != "command"@ by {
        assert(j == 2 || j == 3 || j == 4 || j == 5 || j == 6);
    }
    lemma_member(m, 1);
    assert forall|j: int| 2 < j < 7 implies (#[trigger] m[j]).0 != "db"@ by {
        assert(j == 3 || j == 4 || j == 5 || j == 6);
    }
    lemma_member(m, 2);
    assert forall|j: int| 3 < j < 7 implies (#[trigger] m[j]).0 != "columns"@ by {
        assert(j == 4 || j == 5 || j == 6);
    }
    lemma_member(m, 3);
    assert forall|j: int| 4 < j < 7 implies (#[trigger] m[j]).0 != "row_count"@ by {
        assert(j == 5 || j == 6);
    }
    lemma_member(m, 4);
    assert forall|j: int| 5 < j < 7 implies (#[trigger] m[j]).0 != "rows"@ by {
        assert(j == 6);
    }
    lemma_member(m, 5);
    lemma_member(m, 6);
}

/// What a failed command answers shows each of its parts under a name of its own.
pub proof fn law_error_answer_shows_its_parts(message: Seq<char>)
    ensures
        json::member(responses::error_answer(message), "ok"@) == Some(JsonView::Bool(false)),
        json::member(responses::error_answer(message), "error"@) == Some(JsonView::Str(message)),
{
    let m = responses::error_answer(message)->Object_0;
    reveal_strlit("ok");
    reveal_strlit("error");
    assert("ok"@.len() == 2);
    assert("error"@.len() == 5);
    assert(m.len() == 2);
    assert(m[0].0 == "ok"@);
    assert(m[1].0 == "error"@);
    assert forall|j: int| 0 < j < 2 implies (#[trigger] m[j]).0 != "ok"@ by {
        assert(j == 1);
    }
    lemma_member(m, 0);
    lemma_member(m, 1);
}

/// The record of a definition shows each of its parts under a name of its own.
pub proof fn law_definition_record_shows_its_parts(d: DefinitionView)
    ensures
        json::member(server::definition_record(d), "id"@) == Some(json::optional_integer(d.id)),
        json::member(server::definition_record(d), "name"@) == Some(JsonView::Str(d.name)),
        json::member(server::definition_record(d), "qualified_name"@)
            == Some(JsonView::Str(d.qualified_name)),
        json::member(server::definition_record(d), "kind"@)
            == Some(JsonView::Str(server::kind_label(d.kind))),
        json::member(server::definition_record(d), "location"@)
            == Some(hits::location_value(d.location)),
        json::member(server::definition_record(d), "parent"@)
            == Some(json::optional_text(d.parent)),
        json::member(server::definition_record(d), "signature"@)
            == Some(json::optional_text(d.signature)),
        json::member(server::definition_record(d), "visibility"@)
            == Some(JsonView::Str(server::visibility_label(d.visibility))),
        json::member(server::definition_record(d), "is_definition"@)
            == Some(JsonView::Bool(d.is_definition)),
        json::member(server::definition_record(d), "extra"@) == Some(json::optional_text(d.extra)),
{
    let m = server::definition_record(d)->Object_0;
    reveal_strlit("id");
    reveal_strlit("name");
    reveal_strlit("qualified_name");
    reveal_strlit("kind");
    reveal_strlit("location");
    reveal_strlit("parent");
    reveal_strlit("signature");
    reveal_strlit("visibility");
    reveal_strlit("is_definition");
    reveal_strlit("extra");
    assert("id"@.len() == 2);
    assert("name"@.len() == 4 && "name"@[0] == 'n');
    assert("qualified_name"@.len() == 14);
    assert("kind"@.len() == 4 && "kind"@[0] == 'k');
    assert("location"@.len() == 8);
    assert("parent"@.len() == 6);
    assert("signature"@.len() == 9);
    assert("visibility"@.len() == 10);
    assert("is_definition"@.len() == 13);
    assert("extra"@.len() == 5);
    assert(m.len() == 10);
    assert(m[0].0 == "id"@);
    assert(m[1].0 == "name"@);
    assert(m[2].0 == "qualified_name"@);
    assert(m[3].0 == "kind"@);
    assert(m[4].0 == "location"@);
    assert(m[5].0 == "parent"@);
    assert(m[6].0 == "signature"@);
    assert(m[7].0 == "visibility"@);
    assert(m[8].0 == "is_definition"@);
    assert(m[9].0 == "extra"@);
    assert forall|j: int| 0 < j < 10 implies (#[trigger] m[j]).0 != "id"@ by {
        assert(j == 1 || j == 2 || j == 3 || j == 4 || j == 5 || j == 6 || j == 7 || j == 8 || j == 9);
    }
    lemma_member(m, 0);
    assert forall|j: int| 1 < j < 10 implies (#[trigger] m[j]).0 != "name"@ by {
        assert(j == 2 || j == 3 || j == 4 || j == 5 || j == 6 || j == 7 || j == 8 || j == 9);
    }
    lemma_member(m, 1);
    assert forall|j: int| 2 < j < 10 implies (#[trigger] m[j]).0 != "qualified_name"@ by {
        assert(j == 3 || j == 4 || j == 5 || j == 6 || j == 7 || j == 8 || j == 9);
    }
    lemma_member(m, 2);
    assert forall|j: int| 3 < j < 10 implies (#[trigger] m[j]).0 != "kind"@ by {
        assert(j == 4 || j == 5 || j == 6 || j == 7 || j == 8 || j == 9);
    }
    lemma_member(m, 3);
    assert forall|j: int| 4 < j < 10 implies (#[trigger] m[j]).0 != "location"@ by {
        assert(j == 5 || j == 6 || j == 7 || j == 8 || j == 9);
    }
    lemma_member(m, 4);
    assert forall|j: int| 5 < j < 10 implies (#[trigger] m[j]).0 != "parent"@ by {
        assert(j == 6 || j == 7 || j == 8 || j == 9);
    }
    lemma_member(m, 5);
    assert forall|j: int| 6 < j < 10 implies (#[trigger] m[j]).0 != "signature"@ by {
        assert(j == 7 || j == 8 || j == 9);
    }
    lemma_member(m, 6);
    assert forall|j: int| 7 < j < 10 implies (#[trigger] m[j]).0 != "visibility"@ by {
        assert(j == 8 || j == 9);
    }
    lemma_member(m, 7);
    assert forall|j: int| 8 < j < 10 implies (#[trigger] m[j]).0 != "is_definition"@ by {
        assert(j == 9);
    }
    lemma_member(m, 8);
    lemma_member(m, 9);
}

/// The record of a reference shows each of its parts under a name of its own.
pub proof fn law_reference_record_shows_its_parts(x: ReferenceView)
    ensures
        json::member(server::reference_record(x), "id"@) == Some(json::optional_integer(x.id)),
        json::member(server::reference_record(x), "name"@) == Some(JsonView::Str(x.name)),
        json::member(server::reference_record(x), "kind"@)
            == Some(JsonView::Str(server::kind_label(x.kind))),
        json::member(server::reference_record(x), "location"@)
            == Some(hits::location_value(x.location)),
        json::member(server::reference_record(x), "def_id"@)
            == Some(
                match x.def_id { Some(id) => JsonView::Number(text::decimal(id.0 as nat)), None => JsonView::Null, },
            ),
        json::member(server::reference_record(x), "context"@)
            == Some(json::optional_text(x.context)),
{
    let m = server::reference_record(x)->Object_0;
    reveal_strlit("id");
    reveal_strlit("name");
    reveal_strlit("kind");
    reveal_strlit("location");
    reveal_strlit("def_id");
    reveal_strlit("context");
    assert("id"@.len() == 2);
    assert("name"@.len() == 4 && "name"@[0] == 'n');
    assert("kind"@.len() == 4 && "kind"@[0] == 'k');
    assert("location"@.len() == 8);
    assert("def_id"@.len() == 6);
    assert("context"@.len() == 7);
    assert(m.len() == 6);
    assert(m[0].0 == "id"@);
    assert(m[1].0 == "name"@);
    assert(m[2].0 == "kind"@);
    assert(m[3].0 == "location"@);
    assert(m[4].0 == "def_id"@);
    assert(m[5].0 == "context"@);
    assert forall|j: int| 0 < j < 6 implies (#[trigger] m[j]).0 != "id"@ by {
        assert(j == 1 || j == 2 || j == 3 || j == 4 || j == 5);
    }
    lemma_member(m, 0);
    assert forall|j: int| 1 < j < 6 implies (#[trigger] m[j]).0 != "name"@ by {
        assert(j == 2 || j == 3 || j == 4 || j == 5);
    }
    lemma_member(m, 1);
    assert forall|j: int| 2 < j < 6 implies (#[trigger] m[j]).0 != "kind"@ by {
        assert(j == 3 || j == 4 || j == 5);
    }
    lemma_member(m, 2);
    assert forall|j: int| 3 < j < 6 implies (#[trigger] m[j]).0 != "location"@ by {
        assert(j == 4 || j == 5);
    }
    lemma_member(m, 3);
    assert forall|j: int| 4 < j < 6 implies (#[trigger] m[j]).0 != "def_id"@ by {
        assert(j == 5);
    }
    lemma_member(m, 4);
    lemma_member(m, 5);
}

/// The record of a class hierarchy shows each of its parts under a name of its own.
pub proof fn law_hierarchy_record_shows_its_parts(
    bases: Seq<DefinitionView>,
    derived: Seq<DefinitionView>,
)
    ensures
        json::member(server::hierarchy_record(bases, derived), "bases"@)
            == Some(server::definition_records(bases)),
        json::member(server::hierarchy_record(bases, derived), "derived"@)
            == Some(server::definition_records(derived)),
{
    let m = server::hierarchy_record(bases, derived)->Object_0;
    reveal_strlit("bases");
    reveal_strlit("derived");
    assert("bases"@.len() == 5);
    assert("derived"@.len() == 7);
    assert(m.len() == 2);
    assert(m[0].0 == "bases"@);
    assert(m[1].0 == "derived"@);
    assert forall|j: int| 0 < j < 2 implies (#[trigger] m[j]).0 != "bases"@ by {
        assert(j == 1);
    }
    lemma_member(m, 0);
    lemma_member(m, 1);
}

/// The record of an index shows each of its parts under a name of its own.
pub proof fn law_stats_value_shows_its_parts(ix: IndexView)
    ensures
        json::member(server::stats_value(ix), "definitions"@)
            == Some(JsonView::Number(text::decimal(ix.definitions.len()))),
        json::member(server::stats_value(ix), "references"@)
            == Some(JsonView::Number(text::decimal(ix.references.len()))),
        json::member(server::stats_value(ix), "calls"@)
            == Some(JsonView::Number(text::decimal(ix.calls.len()))),
        json::member(server::stats_value(ix), "inherits"@)
            == Some(JsonView::Number(text::decimal(ix.inherits.len()))),
        json::member(server::stats_value(ix), "files"@) == Some(hits::file_values(ix.files)),
{
    let m = server::stats_value(ix)->Object_0;
    reveal_strlit("definitions");
    reveal_strlit("references");
    reveal_strlit("calls");
    reveal_strlit("inherits");
    reveal_strlit("files");
    assert("definitions"@.len() == 11);
    assert("references"@.len() == 10);
    assert("calls"@.len() == 5 && "calls"@[0] == 'c');
    assert("inherits"@.len() == 8);
    assert("files"@.len() == 5 && "files"@[0] == 'f');
    assert(m.len() == 5);
    assert(m[0].0 == "definitions"@);
    assert(m[1].0 == "references"@);
    assert(m[2].0 == "calls"@);
    assert(m[3].0 == "inherits"@);
    assert(m[4].0 == "files"@);
    assert forall|j: int| 0 < j < 5 implies (#[trigger] m[j]).0 != "definitions"@ by {
        assert(j == 1 || j == 2 || j == 3 || j == 4);
    }
    lemma_member(m, 0);
    assert forall|j: int| 1 < j < 5 implies (#[trigger] m[j]).0 != "references"@ by {
        assert(j == 2 || j == 3 || j == 4);
    }
    lemma_member(m, 1);
    assert forall|j: int| 2 < j < 5 implies (#[trigger] m[j]).0 != "calls"@ by {
        assert(j == 3 || j == 4);
    }
    lemma_member(m, 2);
    assert forall|j: int| 3 < j < 5 implies (#[trigger] m[j]).0 != "inherits"@ by {
        assert(j == 4);
    }
    lemma_member(m, 3);
    lemma_member(m, 4);
}

/// Whether a value is a list of as many items as there are results.
pub open spec fn is_list_of(j: JsonView, n: nat) -> bool {
    j matches JsonView::Array(a) && a.len() == n
}

/// The item of a list at a position.
pub open spec fn item(j: JsonView, i: int) -> JsonView {
    j->Array_0[i]
}

/// A list of definitions that were found shows each of them at its place: with its rank, counted
/// from one; with how well it meets the query, by its qualified name, its name or a part of it; and
/// with its snippet.
pub proof fn law_found_definitions_are_shown_in_turn(
    defs: Seq<DefinitionView>,
    query: Seq<char>,
    snippets: Seq<Option<SnippetView>>,
    i: int,
)
    requires
        0 <= i < defs.len(),
        snippets.len() == defs.len(),
    ensures
        is_list_of(hits::query_hits(defs, query, snippets), defs.len()),
        ({
            let hit = item(hits::query_hits(defs, query, snippets), i);
            &&& json::member(hit, "definition"@) == Some(hits::definition_value(defs[i]))
            &&& json::member(hit, "rank"@) == Some(JsonView::Number(text::decimal((i + 1) as nat)))
            &&& json::member(hit, "snippet"@) == Some(snippet::snippet_value(snippets[i]))
            &&& json::member(hit, "confidence"@) == Some(
                JsonView::Str(
                    if defs[i].qualified_name == query {
                        "exact_qualified"@
                    } else if defs[i].name == query {
                        "exact_simple"@
                    } else {
                        "substring"@
                    },
                ),
            )
        }),
{
    let s = hits::snippet_at(snippets, i);
    let c = hits::confidence(defs[i], query);
    law_definition_hit_shows_its_parts(defs[i], c, i + 1, s);
}

/// A list of definitions that were found in one way, and a list of definitions with the source
/// around them, show each of them at its place.
pub proof fn law_definitions_are_shown_in_turn(
    defs: Seq<DefinitionView>,
    confidence: Seq<char>,
    snippets: Seq<Option<SnippetView>>,
    i: int,
)
    requires
        0 <= i < defs.len(),
        snippets.len() == defs.len(),
    ensures
        is_list_of(hits::definition_hits(defs, confidence, snippets), defs.len()),
        ({
            let hit = item(hits::definition_hits(defs, confidence, snippets), i);
            &&& json::member(hit, "definition"@) == Some(hits::definition_value(defs[i]))
            &&& json::member(hit, "rank"@) == Some(JsonView::Number(text::decimal((i + 1) as nat)))
            &&& json::member(hit, "snippet"@) == Some(snippet::snippet_value(snippets[i]))
            &&& json::member(hit, "confidence"@) == Some(JsonView::Str(confidence))
        }),
        is_list_of(hits::definition_contexts(defs, snippets), defs.len()),
        ({
            let shown = item(hits::definition_contexts(defs, snippets), i);
            &&& json::member(shown, "definition"@) == Some(hits::definition_value(defs[i]))
            &&& json::member(shown, "snippet"@) == Some(snippet::snippet_value(snippets[i]))
        }),
        is_list_of(server::definition_records(defs), defs.len()),
        item(server::definition_records(defs), i) == server::definition_record(defs[i]),
{
    let s = hits::snippet_at(snippets, i);
    law_definition_hit_shows_its_parts(defs[i], confidence, i + 1, s);
    let m = item(hits::definition_contexts(defs, snippets), i)->Object_0;
    reveal_strlit("definition");
    reveal_strlit("snippet");
    assert("definition"@.len() == 10 && "snippet"@.len() == 7);
    assert(m.len() == 2 && m[0].0 == "definition"@ && m[1].0 == "snippet"@);
    assert forall|j: int| 0 < j < 2 implies (#[trigger] m[j]).0 != "definition"@ by {
        assert(j == 1);
    }
    lemma_member(m, 0);
    lemma_member(m, 1);
}

/// A list of references that were found shows each of them at its place, and whether it is
/// resolved.
pub proof fn law_references_are_shown_in_turn(
    uses: Seq<ReferenceView>,
    snippets: Seq<Option<SnippetView>>,
    i: int,
)
    requires
        0 <= i < uses.len(),
        snippets.len() == uses.len(),
    ensures
        is_list_of(hits::reference_hits(uses, snippets), uses.len()),
        ({
            let hit = item(hits::reference_hits(uses, snippets), i);
            &&& json::member(hit, "reference"@) == Some(hits::reference_value(uses[i]))
            &&& json::member(hit, "rank"@) == Some(JsonView::Number(text::decimal((i + 1) as nat)))
            &&& json::member(hit, "snippet"@) == Some(snippet::snippet_value(snippets[i]))
            &&& json::member(hit, "confidence"@) == Some(
                JsonView::Str(
                    match uses[i].def_id {
                        Some(_) => "resolved_unique_name"@,
                        None => "unresolved_name"@,
                    },
                ),
            )
        }),
        is_list_of(server::reference_records(uses), uses.len()),
        item(server::reference_records(uses), i) == server::reference_record(uses[i]),
{
    law_reference_hit_shows_its_parts(uses[i], i + 1, hits::snippet_at(snippets, i));
}

/// A list of calls that were reached shows each of them at its place, with its depth.
pub proof fn law_calls_are_shown_in_turn(
    edges: Seq<(CallEdgeView, usize)>,
    snippets: Seq<Option<SnippetView>>,
    i: int,
)
    requires
        0 <= i < edges.len(),
        snippets.len() == edges.len(),
    ensures
        is_list_of(hits::call_hits(edges, snippets), edges.len()),
        ({
            let hit = item(hits::call_hits(edges, snippets), i);
            &&& json::member(hit, "call"@) == Some(hits::call_value(edges[i].0))
            &&& json::member(hit, "depth"@) == Some(
                JsonView::Number(text::decimal(edges[i].1 as nat)),
            )
            &&& json::member(hit, "snippet"@) == Some(snippet::snippet_value(snippets[i]))
        }),
{
    law_call_hit_shows_its_parts(edges[i], hits::snippet_at(snippets, i));
}

/// A list of indexed files shows each of them at its place.
pub proof fn law_files_are_shown_in_turn(files: Seq<IndexedFileView>, i: int)
    requires
        0 <= i < files.len(),
    ensures
        is_list_of(hits::file_values(files), files.len()),
        item(hits::file_values(files), i) == hits::file_value(files[i]),
{
}

} // verus!
