//! What the reports on indexing runs and on requests show.
use crate::answer_laws::lemma_member;
use crate::benchmark::{BenchmarkReport, SaveMetrics};
use crate::hits;
use crate::index::IndexView;
use crate::indexer::IndexMetrics;
use crate::json::JsonView;
use crate::json;
use crate::language::Language;
use crate::responses::ReindexMetrics;
use crate::responses;
use crate::server;
use crate::snippet::SnippetView;
use crate::snippet;
use crate::stream::StreamedDbWriteMetrics;
use crate::text;
use vstd::prelude::*;

verus! {

/// The counts and timings of an indexing run shows each of its parts under a name of its own.
pub proof fn law_metrics_show_their_parts(m: IndexMetrics)
    ensures
        json::member(responses::metrics_value(m), "threads"@)
            == Some(JsonView::Number(text::decimal(m.threads as nat))),
        json::member(responses::metrics_value(m), "files_discovered"@)
            == Some(JsonView::Number(text::decimal(m.files_discovered as nat))),
        json::member(responses::metrics_value(m), "files_indexed"@)
            == Some(JsonView::Number(text::decimal(m.files_indexed as nat))),
        json::member(responses::metrics_value(m), "bytes_read"@)
            == Some(JsonView::Number(text::decimal(m.bytes_read as nat))),
        json::member(responses::metrics_value(m), "lossy_decoded_files"@)
            == Some(JsonView::Number(text::decimal(m.lossy_decoded_files as nat))),
        json::member(responses::metrics_value(m), "definitions"@)
            == Some(JsonView::Number(text::decimal(m.definitions as nat))),
        json::member(responses::metrics_value(m), "references"@)
            == Some(JsonView::Number(text::decimal(m.references as nat))),
        json::member(responses::metrics_value(m), "calls"@)
            == Some(JsonView::Number(text::decimal(m.calls as nat))),
        json::member(responses::metrics_value(m), "inheritance_edges"@)
            == Some(JsonView::Number(text::decimal(m.inheritance_edges as nat))),
        json::member(responses::metrics_value(m), "discover_ms"@)
            == Some(JsonView::Number(text::decimal(m.discover_ms as nat))),
        json::member(responses::metrics_value(m), "parse_ms"@)
            == Some(JsonView::Number(text::decimal(m.parse_ms as nat))),
        json::member(responses::metrics_value(m), "build_ms"@)
            == Some(JsonView::Number(text::decimal(m.build_ms as nat))),
        json::member(responses::metrics_value(m), "total_ms"@)
            == Some(JsonView::Number(text::decimal(m.total_ms as nat))),
{
    let all = responses::metrics_value(m)->Object_0;
    reveal_strlit("threads");
    reveal_strlit("files_discovered");
    reveal_strlit("files_indexed");
    reveal_strlit("bytes_read");
    reveal_strlit("lossy_decoded_files");
    reveal_strlit("definitions");
    reveal_strlit("references");
    reveal_strlit("calls");
    reveal_strlit("inheritance_edges");
    reveal_strlit("discover_ms");
    reveal_strlit("parse_ms");
    reveal_strlit("build_ms");
    reveal_strlit("total_ms");
    assert("threads"@.len() == 7);
    assert("files_discovered"@.len() == 16);
    assert("files_indexed"@.len() == 13);
    assert("bytes_read"@.len() == 10 && "bytes_read"@[0] == 'b');
    assert("lossy_decoded_files"@.len() == 19);
    assert("definitions"@.len() == 11 && "definitions"@[1] == 'e');
    assert("references"@.len() == 10 && "references"@[0] == 'r');
    assert("calls"@.len() == 5);
    assert("inheritance_edges"@.len() == 17);
    assert("discover_ms"@.len() == 11 && "discover_ms"@[1] == 'i');
    assert("parse_ms"@.len() == 8 && "parse_ms"@[0] == 'p');
    assert("build_ms"@.len() == 8 && "build_ms"@[0] == 'b');
    assert("total_ms"@.len() == 8 && "total_ms"@[0] == 't');
    assert(all.len() == 13);
    assert(all[0].0 == "threads"@);
    assert(all[1].0 == "files_discovered"@);
    assert(all[2].0 == "files_indexed"@);
    assert(all[3].0 == "bytes_read"@);
    assert(all[4].0 == "lossy_decoded_files"@);
    assert(all[5].0 == "definitions"@);
    assert(all[6].0 == "references"@);
    assert(all[7].0 == "calls"@);
    assert(all[8].0 == "inheritance_edges"@);
    assert(all[9].0 == "discover_ms"@);
    assert(all[10].0 == "parse_ms"@);
    assert(all[11].0 == "build_ms"@);
    assert(all[12].0 == "total_ms"@);
    assert forall|j: int| 0 < j < 13 implies (#[trigger] all[j]).0 != "threads"@ by {
        assert(j == 1 || j == 2 || j == 3 || j == 4 || j == 5 || j == 6 || j == 7 || j == 8 || j == 9 || j == 10 || j == 11 || j == 12);
    }
    lemma_member(all, 0);
    assert forall|j: int| 1 < j < 13 implies (#[trigger] all[j]).0 != "files_discovered"@ by {
        assert(j == 2 || j == 3 || j == 4 || j == 5 || j == 6 || j == 7 || j == 8 || j == 9 || j == 10 || j == 11 || j == 12);
    }
    lemma_member(all, 1);
    assert forall|j: int| 2 < j < 13 implies (#[trigger] all[j]).0 != "files_indexed"@ by {
        assert(j == 3 || j == 4 || j == 5 || j == 6 || j == 7 || j == 8 || j == 9 || j == 10 || j == 11 || j == 12);
    }
    lemma_member(all, 2);
    assert forall|j: int| 3 < j < 13 implies (#[trigger] all[j]).0 != "bytes_read"@ by {
        assert(j == 4 || j == 5 || j == 6 || j == 7 || j == 8 || j == 9 || j == 10 || j == 11 || j == 12);
    }
    lemma_member(all, 3);
    assert forall|j: int| 4 < j < 13 implies (#[trigger] all[j]).0 != "lossy_decoded_files"@ by {
        assert(j == 5 || j == 6 || j == 7 || j == 8 || j == 9 || j == 10 || j == 11 || j == 12);
    }
    lemma_member(all, 4);
    assert forall|j: int| 5 < j < 13 implies (#[trigger] all[j]).0 != "definitions"@ by {
        assert(j == 6 || j == 7 || j == 8 || j == 9 || j == 10 || j == 11 || j == 12);
    }
    lemma_member(all, 5);
    assert forall|j: int| 6 < j < 13 implies (#[trigger] all[j]).0 != "references"@ by {
        assert(j == 7 || j == 8 || j == 9 || j == 10 || j == 11 || j == 12);
    }
    lemma_member(all, 6);
    assert forall|j: int| 7 < j < 13 implies (#[trigger] all[j]).0 != "calls"@ by {
        assert(j == 8 || j == 9 || j == 10 || j == 11 || j == 12);
    }
    lemma_member(all, 7);
    assert forall|j: int| 8 < j < 13 implies (#[trigger] all[j]).0 != "inheritance_edges"@ by {
        assert(j == 9 || j == 10 || j == 11 || j == 12);
    }
    lemma_member(all, 8);
    assert forall|j: int| 9 < j < 13 implies (#[trigger] all[j]).0 != "discover_ms"@ by {
        assert(j == 10 || j == 11 || j == 12);
    }
    lemma_member(all, 9);
    assert forall|j: int| 10 < j < 13 implies (#[trigger] all[j]).0 != "parse_ms"@ by {
        assert(j == 11 || j == 12);
    }
    lemma_member(all, 10);
    assert forall|j: int| 11 < j < 13 implies (#[trigger] all[j]).0 != "build_ms"@ by {
        assert(j == 12);
    }
    lemma_member(all, 11);
    lemma_member(all, 12);
}

/// What was done to bring an index up to date shows each of its parts under a name of its own.
pub proof fn law_reindex_metrics_show_their_parts(m: ReindexMetrics)
    ensures
        json::member(responses::reindex_metrics_value(m), "files_discovered"@)
            == Some(JsonView::Number(text::decimal(m.files_discovered as nat))),
        json::member(responses::reindex_metrics_value(m), "files_indexed"@)
            == Some(JsonView::Number(text::decimal(m.files_indexed as nat))),
        json::member(responses::reindex_metrics_value(m), "files_removed"@)
            == Some(JsonView::Number(text::decimal(m.files_removed as nat))),
        json::member(responses::reindex_metrics_value(m), "definitions_inserted"@)
            == Some(JsonView::Number(text::decimal(m.definitions_inserted as nat))),
        json::member(responses::reindex_metrics_value(m), "references_inserted"@)
            == Some(JsonView::Number(text::decimal(m.references_inserted as nat))),
        json::member(responses::reindex_metrics_value(m), "calls_inserted"@)
            == Some(JsonView::Number(text::decimal(m.calls_inserted as nat))),
        json::member(responses::reindex_metrics_value(m), "inheritance_inserted"@)
            == Some(JsonView::Number(text::decimal(m.inheritance_inserted as nat))),
        json::member(responses::reindex_metrics_value(m), "discover_ms"@)
            == Some(JsonView::Number(text::decimal(m.discover_ms as nat))),
        json::member(responses::reindex_metrics_value(m), "checksum_ms"@)
            == Some(JsonView::Number(text::decimal(m.checksum_ms as nat))),
        json::member(responses::reindex_metrics_value(m), "parse_ms"@)
            == Some(JsonView::Number(text::decimal(m.parse_ms as nat))),
        json::member(responses::reindex_metrics_value(m), "db_ms"@)
            == Some(JsonView::Number(text::decimal(m.db_ms as nat))),
        json::member(responses::reindex_metrics_value(m), "total_ms"@)
            == Some(JsonView::Number(text::decimal(m.total_ms as nat))),
{
    let all = responses::reindex_metrics_value(m)->Object_0;
    reveal_strlit("files_discovered");
    reveal_strlit("files_indexed");
    reveal_strlit("files_removed");
    reveal_strlit("definitions_inserted");
    reveal_strlit("references_inserted");
    reveal_strlit("calls_inserted");
    reveal_strlit("inheritance_inserted");
    reveal_strlit("discover_ms");
    reveal_strlit("checksum_ms");
    reveal_strlit("parse_ms");
    reveal_strlit("db_ms");
    reveal_strlit("total_ms");
    assert("files_discovered"@.len() == 16);
    assert("files_indexed"@.len() == 13 && "files_indexed"@[6] == 'i');
    assert("files_removed"@.len() == 13 && "files_removed"@[6] == 'r');
    assert("definitions_inserted"@.len() == 20 && "definitions_inserted"@[0] == 'd');
    assert("references_inserted"@.len() == 19);
    assert("calls_inserted"@.len() == 14);
    assert("inheritance_inserted"@.len() == 20 && "inheritance_inserted"@[0] == 'i');
    assert("discover_ms"@.len() == 11 && "discover_ms"@[0] == 'd');
    assert("checksum_ms"@.len() == 11 && "checksum_ms"@[0] == 'c');
    assert("parse_ms"@.len() == 8 && "parse_ms"@[0] == 'p');
    assert("db_ms"@.len() == 5);
    assert("total_ms"@.len() == 8 && "total_ms"@[0] == 't');
    assert(all.len() == 12);
    assert(all[0].0 == "files_discovered"@);
    assert(all[1].0 == "files_indexed"@);
    assert(all[2].0 == "files_removed"@);
    assert(all[3].0 == "definitions_inserted"@);
    assert(all[4].0 == "references_inserted"@);
    assert(all[5].0 == "calls_inserted"@);
    assert(all[6].0 == "inheritance_inserted"@);
    assert(all[7].0 == "discover_ms"@);
    assert(all[8].0 == "checksum_ms"@);
    assert(all[9].0 == "parse_ms"@);
    assert(all[10].0 == "db_ms"@);
    assert(all[11].0 == "total_ms"@);
    assert forall|j: int| 0 < j < 12 implies (#[trigger] all[j]).0 != "files_discovered"@ by {
        assert(j == 1 || j == 2 || j == 3 || j == 4 || j == 5 || j == 6 || j == 7 || j == 8 || j == 9 || j == 10 || j == 11);
    }
    lemma_member(all, 0);
    assert forall|j: int| 1 < j < 12 implies (#[trigger] all[j]).0 != "files_indexed"@ by {
        assert(j == 2 || j == 3 || j == 4 || j == 5 || j == 6 || j == 7 || j == 8 || j == 9 || j == 10 || j == 11);
    }
    lemma_member(all, 1);
    assert forall|j: int| 2 < j < 12 implies (#[trigger] all[j]).0 != "files_removed"@ by {
        assert(j == 3 || j == 4 || j == 5 || j == 6 || j == 7 || j == 8 || j == 9 || j == 10 || j == 11);
    }
    lemma_member(all, 2);
    assert forall|j: int| 3 < j < 12 implies (#[trigger] all[j]).0 != "definitions_inserted"@ by {
        assert(j == 4 || j == 5 || j == 6 || j == 7 || j == 8 || j == 9 || j == 10 || j == 11);
    }
    lemma_member(all, 3);
    assert forall|j: int| 4 < j < 12 implies (#[trigger] all[j]).0 != "references_inserted"@ by {
        assert(j == 5 || j == 6 || j == 7 || j == 8 || j == 9 || j == 10 || j == 11);
    }
    lemma_member(all, 4);
    assert forall|j: int| 5 < j < 12 implies (#[trigger] all[j]).0 != "calls_inserted"@ by {
        assert(j == 6 || j == 7 || j == 8 || j == 9 || j == 10 || j == 11);
    }
    lemma_member(all, 5);
    assert forall|j: int| 6 < j < 12 implies (#[trigger] all[j]).0 != "inheritance_inserted"@ by {
        assert(j == 7 || j == 8 || j == 9 || j == 10 || j == 11);
    }
    lemma_member(all, 6);
    assert forall|j: int| 7 < j < 12 implies (#[trigger] all[j]).0 != "discover_ms"@ by {
        assert(j == 8 || j == 9 || j == 10 || j == 11);
    }
    lemma_member(all, 7);
    assert forall|j: int| 8 < j < 12 implies (#[trigger] all[j]).0 != "checksum_ms"@ by {
        assert(j == 9 || j == 10 || j == 11);
    }
    lemma_member(all, 8);
    assert forall|j: int| 9 < j < 12 implies (#[trigger] all[j]).0 != "parse_ms"@ by {
        assert(j == 10 || j == 11);
    }
    lemma_member(all, 9);
    assert forall|j: int| 10 < j < 12 implies (#[trigger] all[j]).0 != "db_ms"@ by {
        assert(j == 11);
    }
    lemma_member(all, 10);
    lemma_member(all, 11);
}

/// What `index` answers shows each of its parts under a name of its own.
pub proof fn law_index_answer_shows_its_parts(
    db: Seq<char>,
    roots: Seq<Seq<char>>,
    language: Language,
    ix: IndexView,
    metrics: IndexMetrics,
    save_ms: u128,
)
    ensures
        json::member(responses::index_answer(db, roots, language, ix, metrics, save_ms), "ok"@)
            == Some(JsonView::Bool(true)),
        json::member(responses::index_answer(db, roots, language, ix, metrics, save_ms), "command"@)
            == Some(JsonView::Str("index"@)),
        json::member(responses::index_answer(db, roots, language, ix, metrics, save_ms), "db"@)
            == Some(JsonView::Str(db)),
        json::member(responses::index_answer(db, roots, language, ix, metrics, save_ms), "roots"@)
            == Some(JsonView::Array(roots.map_values(|s: Seq<char>| JsonView::Str(s)))),
        json::member(
            responses::index_answer(db, roots, language, ix, metrics, save_ms),
            "language"@,
        ) == Some(JsonView::Str(language.name())),
        json::member(responses::index_answer(db, roots, language, ix, metrics, save_ms), "summary"@)
            == Some(hits::summary_value(ix)),
        json::member(responses::index_answer(db, roots, language, ix, metrics, save_ms), "metrics"@)
            == Some(responses::metrics_value(metrics)),
        json::member(responses::index_answer(db, roots, language, ix, metrics, save_ms), "save_ms"@)
            == Some(JsonView::Number(text::decimal(save_ms as nat))),
        json::member(
            responses::index_answer(db, roots, language, ix, metrics, save_ms),
            "total_ms"@,
        ) == Some(JsonView::Number(text::decimal((metrics.total_ms + save_ms) as nat))),
{
    assert(roots.map_values(|s: Seq<char>| JsonView::Str(s)) =~= roots.map_values(
        |s: Seq<char>| json::text_value(s),
    ));
    let m = responses::index_answer(db, roots, language, ix, metrics, save_ms)->Object_0;
    reveal_strlit("ok");
    reveal_strlit("command");
    reveal_strlit("db");
    reveal_strlit("roots");
    reveal_strlit("language");
    reveal_strlit("summary");
    reveal_strlit("metrics");
    reveal_strlit("save_ms");
    reveal_strlit("total_ms");
    assert("ok"@.len() == 2 && "ok"@[0] == 'o');
    assert("command"@.len() == 7 && "command"@[0] == 'c');
    assert("db"@.len() == 2 && "db"@[0] == 'd');
    assert("roots"@.len() == 5);
    assert("language"@.len() == 8 && "language"@[0] == 'l');
    assert("summary"@.len() == 7 && "summary"@[0] == 's' && "summary"@[1] == 'u');
    assert("metrics"@.len() == 7 && "metrics"@[0] == 'm');
    assert("save_ms"@.len() == 7 && "save_ms"@[0] == 's' && "save_ms"@[1] == 'a');
    assert("total_ms"@.len() == 8 && "total_ms"@[0] == 't');
    assert(m.len() == 9);
    assert(m[0].0 == "ok"@);
    assert(m[1].0 == "command"@);
    assert(m[2].0 == "db"@);
    assert(m[3].0 == "roots"@);
    assert(m[4].0 == "language"@);
    assert(m[5].0 == "summary"@);
    assert(m[6].0 == "metrics"@);
    assert(m[7].0 == "save_ms"@);
    assert(m[8].0 == "total_ms"@);
    assert forall|j: int| 0 < j < 9 implies (#[trigger] m[j]).0 != "ok"@ by {
        assert(j == 1 || j == 2 || j == 3 || j == 4 || j == 5 || j == 6 || j == 7 || j == 8);
    }
    lemma_member(m, 0);
    assert forall|j: int| 1 < j < 9 implies (#[trigger] m[j]).0 != "command"@ by {
        assert(j == 2 || j == 3 || j == 4 || j == 5 || j == 6 || j == 7 || j == 8);
    }
    lemma_member(m, 1);
    assert forall|j: int| 2 < j < 9 implies (#[trigger] m[j]).0 != "db"@ by {
        assert(j == 3 || j == 4 || j == 5 || j == 6 || j == 7 || j == 8);
    }
    lemma_member(m, 2);
    assert forall|j: int| 3 < j < 9 implies (#[trigger] m[j]).0 != "roots"@ by {
        assert(j == 4 || j == 5 || j == 6 || j == 7 || j == 8);
    }
    lemma_member(m, 3);
    assert forall|j: int| 4 < j < 9 implies (#[trigger] m[j]).0 != "language"@ by {
        assert(j == 5 || j == 6 || j == 7 || j == 8);
    }
    lemma_member(m, 4);
    assert forall|j: int| 5 < j < 9 implies (#[trigger] m[j]).0 != "summary"@ by {
        assert(j == 6 || j == 7 || j == 8);
    }
    lemma_member(m, 5);
    assert forall|j: int| 6 < j < 9 implies (#[trigger] m[j]).0 != "metrics"@ by {
        assert(j == 7 || j == 8);
    }
    lemma_member(m, 6);
    assert forall|j: int| 7 < j < 9 implies (#[trigger] m[j]).0 != "save_ms"@ by {
        assert(j == 8);
    }
    lemma_member(m, 7);
    lemma_member(m, 8);
}

/// What `reindex` answers shows each of its parts under a name of its own.
pub proof fn law_reindex_answer_shows_its_parts(
    db: Seq<char>,
    roots: Seq<Seq<char>>,
    language: Seq<char>,
    metrics: ReindexMetrics,
)
    ensures
        json::member(responses::reindex_answer(db, roots, language, metrics), "ok"@)
            == Some(JsonView::Bool(true)),
        json::member(responses::reindex_answer(db, roots, language, metrics), "command"@)
            == Some(JsonView::Str("reindex"@)),
        json::member(responses::reindex_answer(db, roots, language, metrics), "db"@)
            == Some(JsonView::Str(db)),
        json::member(responses::reindex_answer(db, roots, language, metrics), "roots"@)
            == Some(JsonView::Array(roots.map_values(|s: Seq<char>| JsonView::Str(s)))),
        json::member(responses::reindex_answer(db, roots, language, metrics), "language"@)
            == Some(JsonView::Str(language)),
        json::member(responses::reindex_answer(db, roots, language, metrics), "metrics"@)
            == Some(responses::reindex_metrics_value(metrics)),
{
    assert(roots.map_values(|s: Seq<char>| JsonView::Str(s)) =~= roots.map_values(
        |s: Seq<char>| json::text_value(s),
    ));
    let m = responses::reindex_answer(db, roots, language, metrics)->Object_0;
    reveal_strlit("ok");
    reveal_strlit("command");
    reveal_strlit("db");
    reveal_strlit("roots");
    reveal_strlit("language");
    reveal_strlit("metrics");
    assert("ok"@.len() == 2 && "ok"@[0] == 'o');
    assert("command"@.len() == 7 && "command"@[0] == 'c');
    assert("db"@.len() == 2 && "db"@[0] == 'd');
    assert("roots"@.len() == 5);
    assert("language"@.len() == 8);
    assert("metrics"@.len() == 7 && "metrics"@[0] == 'm');
    assert(m.len() == 6);
    assert(m[0].0 == "ok"@);
    assert(m[1].0 == "command"@);
    assert(m[2].0 == "db"@);
    assert(m[3].0 == "roots"@);
    assert(m[4].0 == "language"@);
    assert(m[5].0 == "metrics"@);
    assert forall|j: int| 0 < j < 6 implies (#[trigger] m[j]).0 != "ok"@ by {
        assert(j == 1 || j == 2 || j == 3 || j == 4 || j == 5);
    }
    lemma_member(m, 0);
    assert forall|j: int| 1 < j < 6 implies (#[trigger] m[j]).0 != "command"@ by {
        assert(j == 2 || j == 3 || j == 4 || j == 5);
    }
    lemma_member(m, 1);
    assert forall|j: int| 2 < j < 6 implies (#[trigger] m[j]).0 != "db"@ by {
        assert(j == 3 || j == 4 || j == 5);
    }
    lemma_member(m, 2);
    assert forall|j: int| 3 < j < 6 implies (#[trigger] m[j]).0 != "roots"@ by {
        assert(j == 4 || j == 5);
    }
    lemma_member(m, 3);
    assert forall|j: int| 4 < j < 6 implies (#[trigger] m[j]).0 != "language"@ by {
        assert(j == 5);
    }
    lemma_member(m, 4);
    lemma_member(m, 5);
}

/// What a streamed write took shows each of its parts under a name of its own.
pub proof fn law_writer_shows_its_parts(w: StreamedDbWriteMetrics)
    ensures
        json::member(responses::writer_value(Some(w)), "setup_ms"@)
            == Some(JsonView::Number(text::decimal(w.setup_ms as nat))),
        json::member(responses::writer_value(Some(w)), "streamed_files_and_definitions_ms"@)
            == Some(JsonView::Number(text::decimal(w.streamed_files_and_definitions_ms as nat))),
        json::member(responses::writer_value(Some(w)), "pending_edges_ms"@)
            == Some(JsonView::Number(text::decimal(w.pending_edges_ms as nat))),
        json::member(responses::writer_value(Some(w)), "commit_ms"@)
            == Some(JsonView::Number(text::decimal(w.commit_ms as nat))),
        json::member(responses::writer_value(Some(w)), "create_indexes_ms"@)
            == Some(JsonView::Number(text::decimal(w.create_indexes_ms as nat))),
        json::member(responses::writer_value(Some(w)), "finalize_ms"@)
            == Some(JsonView::Number(text::decimal(w.finalize_ms as nat))),
        json::member(responses::writer_value(Some(w)), "total_ms"@)
            == Some(JsonView::Number(text::decimal(w.total_ms as nat))),
{
    let m = responses::writer_value(Some(w))->Object_0;
    reveal_strlit("setup_ms");
    reveal_strlit("streamed_files_and_definitions_ms");
    reveal_strlit("pending_edges_ms");
    reveal_strlit("commit_ms");
    reveal_strlit("create_indexes_ms");
    reveal_strlit("finalize_ms");
    reveal_strlit("total_ms");
    assert("setup_ms"@.len() == 8 && "setup_ms"@[0] == 's');
    assert("streamed_files_and_definitions_ms"@.len() == 33);
    assert("pending_edges_ms"@.len() == 16);
    assert("commit_ms"@.len() == 9);
    assert("create_indexes_ms"@.len() == 17);
    assert("finalize_ms"@.len() == 11);
    assert("total_ms"@.len() == 8 && "total_ms"@[0] == 't');
    assert(m.len() == 7);
    assert(m[0].0 == "setup_ms"@);
    assert(m[1].0 == "streamed_files_and_definitions_ms"@);
    assert(m[2].0 == "pending_edges_ms"@);
    assert(m[3].0 == "commit_ms"@);
    assert(m[4].0 == "create_indexes_ms"@);
    assert(m[5].0 == "finalize_ms"@);
    assert(m[6].0 == "total_ms"@);
    assert forall|j: int| 0 < j < 7 implies (#[trigger] m[j]).0 != "setup_ms"@ by {
        assert(j == 1 || j == 2 || j == 3 || j == 4 || j == 5 || j == 6);
    }
    lemma_member(m, 0);
    assert forall|j: int| 1 < j < 7 implies (#[trigger] m[j]).0 != "streamed_files_and_definitions_ms"@ by {
        assert(j == 2 || j == 3 || j == 4 || j == 5 || j == 6);
    }
    lemma_member(m, 1);
    assert forall|j: int| 2 < j < 7 implies (#[trigger] m[j]).0 != "pending_edges_ms"@ by {
        assert(j == 3 || j == 4 || j == 5 || j == 6);
    }
    lemma_member(m, 2);
    assert forall|j: int| 3 < j < 7 implies (#[trigger] m[j]).0 != "commit_ms"@ by {
        assert(j == 4 || j == 5 || j == 6);
    }
    lemma_member(m, 3);
    assert forall|j: int| 4 < j < 7 implies (#[trigger] m[j]).0 != "create_indexes_ms"@ by {
        assert(j == 5 || j == 6);
    }
    lemma_member(m, 4);
    assert forall|j: int| 5 < j < 7 implies (#[trigger] m[j]).0 != "finalize_ms"@ by {
        assert(j == 6);
    }
    lemma_member(m, 5);
    lemma_member(m, 6);
}

/// What a save took shows each of its parts under a name of its own.
pub proof fn law_save_shows_its_parts(s: SaveMetrics)
    ensures
        json::member(responses::save_value(Some(s)), "db"@) == Some(JsonView::Str(s.db@)),
        json::member(responses::save_value(Some(s)), "save_ms"@)
            == Some(JsonView::Number(text::decimal(s.save_ms as nat))),
        json::member(responses::save_value(Some(s)), "writer"@)
            == Some(responses::writer_value(s.writer)),
        json::member(responses::save_value(Some(s)), "db_bytes"@) == Some(
            match s.db_bytes { Some(n) => JsonView::Number(text::decimal(n as nat)), None => JsonView::Null, },
        ),
{
    let m = responses::save_value(Some(s))->Object_0;
    reveal_strlit("db");
    reveal_strlit("save_ms");
    reveal_strlit("writer");
    reveal_strlit("db_bytes");
    assert("db"@.len() == 2);
    assert("save_ms"@.len() == 7);
    assert("writer"@.len() == 6);
    assert("db_bytes"@.len() == 8);
    assert(m.len() == 4);
    assert(m[0].0 == "db"@);
    assert(m[1].0 == "save_ms"@);
    assert(m[2].0 == "writer"@);
    assert(m[3].0 == "db_bytes"@);
    assert forall|j: int| 0 < j < 4 implies (#[trigger] m[j]).0 != "db"@ by {
        assert(j == 1 || j == 2 || j == 3);
    }
    lemma_member(m, 0);
    assert forall|j: int| 1 < j < 4 implies (#[trigger] m[j]).0 != "save_ms"@ by {
        assert(j == 2 || j == 3);
    }
    lemma_member(m, 1);
    assert forall|j: int| 2 < j < 4 implies (#[trigger] m[j]).0 != "writer"@ by {
        assert(j == 3);
    }
    lemma_member(m, 2);
    lemma_member(m, 3);
}

/// The report that `bench` answers.
pub open spec fn report_of(x: BenchmarkReport) -> JsonView {
    json::member(responses::bench_answer(x), "report"@)->0
}

/// Where the report stands that `bench` answers.
proof fn lemma_report(x: BenchmarkReport)
    ensures
        json::member(responses::bench_answer(x), "report"@) == Some(
            responses::bench_answer(x)->Object_0[2].1,
        ),
        json::member(responses::bench_answer(x), "ok"@) == Some(JsonView::Bool(true)),
{
    let m = responses::bench_answer(x)->Object_0;
    reveal_strlit("ok");
    reveal_strlit("command");
    reveal_strlit("report");
    assert("ok"@.len() == 2 && "command"@.len() == 7 && "report"@.len() == 6);
    lemma_member(m, 0);
    lemma_member(m, 2);
}

/// The report that `bench` answers shows each of its parts under a name of its own.
pub proof fn law_bench_report_shows_its_parts(x: BenchmarkReport)
    ensures
        json::member(report_of(x), "roots"@) == Some(
            JsonView::Array( text::views(x.roots@).map_values( |s: Seq<char>| JsonView::Str(s), ), ),
        ),
        json::member(report_of(x), "language"@) == Some(JsonView::Str(x.language@)),
        json::member(report_of(x), "follow_symlinks"@) == Some(JsonView::Bool(x.follow_symlinks)),
        json::member(report_of(x), "reference_mode"@)
            == Some(JsonView::Str(responses::mode_label(x.reference_mode))),
        json::member(report_of(x), "include_reference_context"@)
            == Some(JsonView::Bool(x.include_reference_context)),
        json::member(report_of(x), "index"@) == Some(responses::metrics_value(x.index)),
        json::member(report_of(x), "save"@) == Some(responses::save_value(x.save)),
        json::member(report_of(x), "total_ms"@)
            == Some(JsonView::Number(text::decimal(x.total_ms as nat))),
{
    lemma_report(x);
    let roots = text::views(x.roots@);
    assert(roots.map_values(|s: Seq<char>| JsonView::Str(s)) =~= roots.map_values(
        |s: Seq<char>| json::text_value(s),
    ));
    let m = report_of(x)->Object_0;
    reveal_strlit("roots");
    reveal_strlit("language");
    reveal_strlit("follow_symlinks");
    reveal_strlit("reference_mode");
    reveal_strlit("include_reference_context");
    reveal_strlit("index");
    reveal_strlit("save");
    reveal_strlit("total_ms");
    assert("roots"@.len() == 5 && "roots"@[0] == 'r');
    assert("language"@.len() == 8 && "language"@[0] == 'l');
    assert("follow_symlinks"@.len() == 15);
    assert("reference_mode"@.len() == 14);
    assert("include_reference_context"@.len() == 25);
    assert("index"@.len() == 5 && "index"@[0] == 'i');
    assert("save"@.len() == 4);
    assert("total_ms"@.len() == 8 && "total_ms"@[0] == 't');
    assert(m.len() == 8);
    assert(m[0].0 == "roots"@);
    assert(m[1].0 == "language"@);
    assert(m[2].0 == "follow_symlinks"@);
    assert(m[3].0 == "reference_mode"@);
    assert(m[4].0 == "include_reference_context"@);
    assert(m[5].0 == "index"@);
    assert(m[6].0 == "save"@);
    assert(m[7].0 == "total_ms"@);
    assert forall|j: int| 0 < j < 8 implies (#[trigger] m[j]).0 != "roots"@ by {
        assert(j == 1 || j == 2 || j == 3 || j == 4 || j == 5 || j == 6 || j == 7);
    }
    lemma_member(m, 0);
    assert forall|j: int| 1 < j < 8 implies (#[trigger] m[j]).0 != "language"@ by {
        assert(j == 2 || j == 3 || j == 4 || j == 5 || j == 6 || j == 7);
    }
    lemma_member(m, 1);
    assert forall|j: int| 2 < j < 8 implies (#[trigger] m[j]).0 != "follow_symlinks"@ by {
        assert(j == 3 || j == 4 || j == 5 || j == 6 || j == 7);
    }
    lemma_member(m, 2);
    assert forall|j: int| 3 < j < 8 implies (#[trigger] m[j]).0 != "reference_mode"@ by {
        assert(j == 4 || j == 5 || j == 6 || j == 7);
    }
    lemma_member(m, 3);
    assert forall|j: int| 4 < j < 8 implies (#[trigger] m[j]).0 != "include_reference_context"@ by {
        assert(j == 5 || j == 6 || j == 7);
    }
    lemma_member(m, 4);
    assert forall|j: int| 5 < j < 8 implies (#[trigger] m[j]).0 != "index"@ by {
        assert(j == 6 || j == 7);
    }
    lemma_member(m, 5);
    assert forall|j: int| 6 < j < 8 implies (#[trigger] m[j]).0 != "save"@ by {
        assert(j == 7);
    }
    lemma_member(m, 6);
    lemma_member(m, 7);
}

/// The place that `context` answers about.
pub open spec fn target_of(file: Seq<char>, line: usize, shown: Option<SnippetView>) -> JsonView {
    json::member(responses::place_answer(file, line, shown), "target"@)->0
}

/// What `context` answers about a place shows the place that was asked for and the source around it.
pub proof fn law_place_answer_shows_its_parts(
    file: Seq<char>,
    line: usize,
    shown: Option<SnippetView>,
)
    ensures
        json::member(responses::place_answer(file, line, shown), "ok"@) == Some(
            JsonView::Bool(true),
        ),
        json::member(responses::place_answer(file, line, shown), "snippet"@) == Some(
            snippet::snippet_value(shown),
        ),
        json::member(target_of(file, line, shown), "file"@) == Some(JsonView::Str(file)),
        json::member(target_of(file, line, shown), "line"@) == Some(
            JsonView::Number(text::decimal(line as nat)),
        ),
{
    let m = responses::place_answer(file, line, shown)->Object_0;
    reveal_strlit("ok");
    reveal_strlit("command");
    reveal_strlit("target");
    reveal_strlit("snippet");
    reveal_strlit("file");
    reveal_strlit("line");
    assert("ok"@.len() == 2 && "command"@.len() == 7 && "target"@.len() == 6);
    assert("snippet"@.len() == 7 && "snippet"@[0] == 's' && "command"@[0] == 'c');
    assert("file"@[0] == 'f' && "line"@[0] == 'l');
    lemma_member(m, 0);
    lemma_member(m, 2);
    lemma_member(m, 3);
    lemma_member(m[2].1->Object_0, 0);
    lemma_member(m[2].1->Object_0, 1);
}

/// What a request to index is answered shows each of its parts under a name of its own.
pub proof fn law_indexed_value_shows_its_parts(db: Seq<char>, path: Seq<char>, ix: IndexView)
    ensures
        json::member(server::indexed_value(db, path, ix), "db"@) == Some(JsonView::Str(db)),
        json::member(server::indexed_value(db, path, ix), "path"@) == Some(JsonView::Str(path)),
        json::member(server::indexed_value(db, path, ix), "definitions"@)
            == Some(JsonView::Number(text::decimal(ix.definitions.len()))),
        json::member(server::indexed_value(db, path, ix), "references"@)
            == Some(JsonView::Number(text::decimal(ix.references.len()))),
        json::member(server::indexed_value(db, path, ix), "files"@)
            == Some(JsonView::Number(text::decimal(ix.files.len()))),
{
    let m = server::indexed_value(db, path, ix)->Object_0;
    reveal_strlit("db");
    reveal_strlit("path");
    reveal_strlit("definitions");
    reveal_strlit("references");
    reveal_strlit("files");
    assert("db"@.len() == 2);
    assert("path"@.len() == 4);
    assert("definitions"@.len() == 11);
    assert("references"@.len() == 10);
    assert("files"@.len() == 5);
    assert(m.len() == 5);
    assert(m[0].0 == "db"@);
    assert(m[1].0 == "path"@);
    assert(m[2].0 == "definitions"@);
    assert(m[3].0 == "references"@);
    assert(m[4].0 == "files"@);
    assert forall|j: int| 0 < j < 5 implies (#[trigger] m[j]).0 != "db"@ by {
        assert(j == 1 || j == 2 || j == 3 || j == 4);
    }
    lemma_member(m, 0);
    assert forall|j: int| 1 < j < 5 implies (#[trigger] m[j]).0 != "path"@ by {
        assert(j == 2 || j == 3 || j == 4);
    }
    lemma_member(m, 1);
    assert forall|j: int| 2 < j < 5 implies (#[trigger] m[j]).0 != "definitions"@ by {
        assert(j == 3 || j == 4);
    }
    lemma_member(m, 2);
    assert forall|j: int| 3 < j < 5 implies (#[trigger] m[j]).0 != "references"@ by {
        assert(j == 4);
    }
    lemma_member(m, 3);
    lemma_member(m, 4);
}

/// What a query is answered shows each of its parts under a name of its own.
pub proof fn law_query_value_shows_its_parts(columns: Seq<Seq<char>>, rows: Seq<JsonView>)
    ensures
        json::member(server::query_value(columns, rows), "columns"@)
            == Some(JsonView::Array(columns.map_values(|s: Seq<char>| JsonView::Str(s)))),
        json::member(server::query_value(columns, rows), "rows"@) == Some(JsonView::Array(rows)),
{
    assert(columns.map_values(|s: Seq<char>| JsonView::Str(s)) =~= columns.map_values(
        |s: Seq<char>| json::text_value(s),
    ));
    let m = server::query_value(columns, rows)->Object_0;
    reveal_strlit("columns");
    reveal_strlit("rows");
    assert("columns"@.len() == 7);
    assert("rows"@.len() == 4);
    assert(m.len() == 2);
    assert(m[0].0 == "columns"@);
    assert(m[1].0 == "rows"@);
    assert forall|j: int| 0 < j < 2 implies (#[trigger] m[j]).0 != "columns"@ by {
        assert(j == 1);
    }
    lemma_member(m, 0);
    lemma_member(m, 1);
}

/// A reply that went well shows each of its parts under a name of its own.
pub proof fn law_ok_body_shows_its_parts(data: JsonView)
    ensures
        json::member(server::ok_body(data), "success"@) == Some(JsonView::Bool(true)),
        json::member(server::ok_body(data), "data"@) == Some(data),
{
    let m = server::ok_body(data)->Object_0;
    reveal_strlit("success");
    reveal_strlit("data");
    assert("success"@.len() == 7);
    assert("data"@.len() == 4);
    assert(m.len() == 2);
    assert(m[0].0 == "success"@);
    assert(m[1].0 == "data"@);
    assert forall|j: int| 0 < j < 2 implies (#[trigger] m[j]).0 != "success"@ by {
        assert(j == 1);
    }
    lemma_member(m, 0);
    lemma_member(m, 1);
}

/// A reply that failed shows each of its parts under a name of its own.
pub proof fn law_error_body_shows_its_parts(message: Seq<char>)
    ensures
        json::member(server::error_body(message), "success"@) == Some(JsonView::Bool(false)),
        json::member(server::error_body(message), "error"@) == Some(JsonView::Str(message)),
{
    let m = server::error_body(message)->Object_0;
    reveal_strlit("success");
    reveal_strlit("error");
    assert("success"@.len() == 7);
    assert("error"@.len() == 5);
    assert(m.len() == 2);
    assert(m[0].0 == "success"@);
    assert(m[1].0 == "error"@);
    assert forall|j: int| 0 < j < 2 implies (#[trigger] m[j]).0 != "success"@ by {
        assert(j == 1);
    }
    lemma_member(m, 0);
    lemma_member(m, 1);
}

/// A row of a query result shows each value under the name of its column, where no column behind it
/// has the same name.
pub proof fn law_rows_show_their_columns(
    columns: Seq<Seq<char>>,
    values: Seq<JsonView>,
    k: int,
)
    requires
        columns.len() == values.len(),
        0 <= k < columns.len(),
        forall|j: int| k < j < columns.len() ==> #[trigger] columns[j] != columns[k],
    ensures
        json::member(responses::row_value(columns, values), columns[k]) == Some(values[k]),
{
    let m = responses::row_value(columns, values)->Object_0;
    assert forall|j: int| k < j < m.len() implies (#[trigger] m[j]).0 != m[k].0 by {
        assert(columns[j] != columns[k]);
    }
    lemma_member(m, k);
}

} // verus!
