//! Timed indexing runs.
use crate::indexer::{IndexMetrics, Indexer, IndexerView};
use crate::language::{Language, ReferenceMode};
use crate::stream::StreamedDbWriteMetrics;
use crate::text::joined;
use crate::text;
use vstd::prelude::*;

verus! {

/// Configuration for a benchmarked indexing run.
#[derive(Debug)]
pub struct BenchmarkConfig {
    pub roots: Vec<String>,
    pub language: Language,
    pub follow_symlinks: bool,
    pub threads: Option<usize>,
    pub reference_mode: ReferenceMode,
    pub include_reference_context: bool,
    pub db_path: Option<String>,
}

impl Default for BenchmarkConfig {
    /// A run of C++ without roots, references or database.
    fn default() -> (r: Self)
        ensures
            r.roots@.len() == 0,
            r.language == Language::Cpp,
            !r.follow_symlinks,
            r.threads is None,
            r.reference_mode == ReferenceMode::Off,
            !r.include_reference_context,
            r.db_path is None,
    {
        BenchmarkConfig {
            roots: Vec::new(),
            language: Language::Cpp,
            follow_symlinks: false,
            threads: None,
            reference_mode: ReferenceMode::Off,
            include_reference_context: false,
            db_path: None,
        }
    }
}

/// Timing information for SQLite persistence.
#[derive(Debug)]
pub struct SaveMetrics {
    pub db: String,
    pub save_ms: u128,
    pub writer: Option<StreamedDbWriteMetrics>,
    pub db_bytes: Option<u64>,
}

/// Full benchmark report for an index run and optional database save.
#[derive(Debug)]
pub struct BenchmarkReport {
    pub roots: Vec<String>,
    pub language: &'static str,
    pub follow_symlinks: bool,
    pub reference_mode: ReferenceMode,
    pub include_reference_context: bool,
    pub index: IndexMetrics,
    pub save: Option<SaveMetrics>,
    pub total_ms: u128,
}

/// What saving to a database took.
#[derive(Debug)]
pub struct MeasuredSave {
    pub save_ms: u128,
    pub writer: StreamedDbWriteMetrics,
    pub db_bytes: Option<u64>,
}

/// What an indexing run took, and saving its result where that was asked for.
#[derive(Debug)]
pub struct Measured {
    pub index: IndexMetrics,
    pub save: Option<MeasuredSave>,
}

/// The settings of the indexing run of a benchmark.
pub open spec fn benchmark_settings(config: BenchmarkConfig) -> IndexerView {
    IndexerView {
        paths: text::views(config.roots@),
        language: config.language,
        follow_symlinks: config.follow_symlinks,
        threads: match config.threads {
            Some(n) => if n > 0 {
                Some(n)
            } else {
                None
            },
            None => None,
        },
        reference_mode: config.reference_mode,
        include_reference_context: config.include_reference_context,
    }
}

impl BenchmarkConfig {
    /// The indexer to run: an error where there is nothing to index.
    pub fn indexer(&self) -> (r: Result<Indexer, String>)
        ensures
            match r {
                Ok(x) => self.roots@.len() > 0 && x@ == benchmark_settings(*self),
                Err(e) => self.roots@.len() == 0 && e@ == "benchmark requires at least one root"@,
            },
    {
        if self.roots.len() == 0 {
            return Err("benchmark requires at least one root".to_owned());
        }
        let mut builder = Indexer::builder().language(self.language).follow_symlinks(
            self.follow_symlinks,
        ).reference_mode(self.reference_mode).reference_context(self.include_reference_context);
        if let Some(threads) = self.threads {
            builder = builder.threads(threads);
        }
        let ghost settings = benchmark_settings(*self);
        let ghost all = text::views(self.roots@);
        assert(all.take(0) =~= Seq::empty());
        let mut i: usize = 0;
        while i < self.roots.len()
            invariant
                i <= self.roots@.len(),
                all == text::views(self.roots@),
                builder@ == (IndexerView { paths: all.take(i as int), ..settings }),
            decreases self.roots@.len() - i,
        {
            builder = builder.add_directory(self.roots[i].as_str());
            i = i + 1;
            assert(all.take(i as int) =~= all.take(i - 1).push(all[i - 1]));
        }
        assert(all.take(i as int) =~= all);
        Ok(builder.build())
    }
}

/// The name of a language in reports.
pub fn language_name(language: Language) -> (r: &'static str)
    ensures
        r@ == language.name(),
{
    match language {
        Language::C => "c",
        Language::Cpp => "cpp",
    }
}

/// The message for a run that failed.
pub open spec fn failure(config: BenchmarkConfig, cause: Seq<char>) -> Seq<char> {
    match config.db_path {
        Some(db) => "benchmark streamed index failed for '"@ + db@ + "': "@ + cause,
        None => "benchmark index failed: "@ + cause,
    }
}

/// Whether a report shows what was configured and measured.
pub open spec fn reports(
    r: BenchmarkReport,
    config: BenchmarkConfig,
    measured: Measured,
    total_ms: u128,
) -> bool {
    &&& text::views(r.roots@) == text::views(config.roots@)
    &&& r.language@ == config.language.name()
    &&& r.follow_symlinks == config.follow_symlinks
    &&& r.reference_mode == config.reference_mode
    &&& r.include_reference_context == config.include_reference_context
    &&& r.index == measured.index
    &&& r.total_ms == total_ms
    &&& match (r.save, config.db_path, measured.save) {
        (Some(s), Some(db), Some(m)) => s.db@ == db@ && s.save_ms == m.save_ms && s.writer == Some(
            m.writer,
        ) && s.db_bytes == m.db_bytes,
        (None, _, _) => config.db_path is None || measured.save is None,
        _ => false,
    }
}

/// The outcome of a benchmark from what its indexing run took or why it failed.
pub fn run(config: BenchmarkConfig, measured: Result<Measured, String>, total_ms: u128) -> (r:
    Result<BenchmarkReport, String>)
    ensures
        match (r, measured) {
            (Ok(report), Ok(m)) => config.roots@.len() > 0 && reports(report, config, m, total_ms),
            (Ok(_), Err(_)) => false,
            (Err(e), Ok(_)) => config.roots@.len() == 0 && e@
                == "benchmark requires at least one root"@,
            (Err(e), Err(cause)) => e@ == if config.roots@.len() == 0 {
                "benchmark requires at least one root"@
            } else {
                failure(config, cause@)
            },
        },
{
    if config.roots.len() == 0 {
        return Err("benchmark requires at least one root".to_owned());
    }
    let measured = match measured {
        Ok(m) => m,
        Err(cause) => {
            return Err(
                match &config.db_path {
                    Some(db) => {
                        let named = joined("benchmark streamed index failed for '", db.as_str());
                        let opened = joined(named.as_str(), "': ");
                        joined(opened.as_str(), cause.as_str())
                    },
                    None => joined("benchmark index failed: ", cause.as_str()),
                },
            );
        },
    };
    let save = match (config.db_path, measured.save) {
        (Some(db), Some(m)) => Some(
            SaveMetrics {
                db,
                save_ms: m.save_ms,
                writer: Some(m.writer),
                db_bytes: m.db_bytes,
            },
        ),
        _ => None,
    };
    Ok(
        BenchmarkReport {
            roots: config.roots,
            language: language_name(config.language),
            follow_symlinks: config.follow_symlinks,
            reference_mode: config.reference_mode,
            include_reference_context: config.include_reference_context,
            index: measured.index,
            save,
            total_ms,
        },
    )
}

} // verus!
