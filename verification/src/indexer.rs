//! Configures an indexing run, selects its files, and puts its results together.
use crate::cpp_parser::CppParser;
use crate::index::{Index, IndexBuilder};
use crate::index;
use crate::language::{Language, ReferenceMode};
use crate::parser::Parser;
use crate::paths::extension_of;
use crate::paths;
use crate::source::decode_source;
use crate::source;
use crate::text::{same, starts_with, to_ascii_lower};
use crate::text;
use crate::types::{FileSymbols, FileSymbolsView};
use vstd::prelude::*;
use vstd::utf8::*;

verus! {

/// Timings and counts from one indexing pass.
#[derive(Debug, Clone, Copy, PartialEq, Eq, Structural)]
pub struct IndexMetrics {
    pub threads: usize,
    pub files_discovered: usize,
    pub files_indexed: usize,
    pub bytes_read: u64,
    pub lossy_decoded_files: usize,
    pub definitions: usize,
    pub references: usize,
    pub calls: usize,
    pub inheritance_edges: usize,
    pub discover_ms: u128,
    pub parse_ms: u128,
    pub build_ms: u128,
    pub total_ms: u128,
}

/// Result of an indexing pass with timing data.
pub struct IndexedRun {
    pub index: Index,
    pub metrics: IndexMetrics,
}

/// What an indexing run is told.
pub struct IndexerView {
    pub paths: Seq<Seq<char>>,
    pub language: Language,
    pub follow_symlinks: bool,
    pub threads: Option<usize>,
    pub reference_mode: ReferenceMode,
    pub include_reference_context: bool,
}

/// Builds and configures an [Indexer].
pub struct IndexerBuilder {
    paths: Vec<String>,
    language: Language,
    follow_symlinks: bool,
    threads: Option<usize>,
    reference_mode: ReferenceMode,
    include_reference_context: bool,
}

impl View for IndexerBuilder {
    type V = IndexerView;

    closed spec fn view(&self) -> IndexerView {
        IndexerView {
            paths: text::views(self.paths@),
            language: self.language,
            follow_symlinks: self.follow_symlinks,
            threads: self.threads,
            reference_mode: self.reference_mode,
            include_reference_context: self.include_reference_context,
        }
    }
}

/// The settings of a run about which nothing was said.
pub open spec fn default_settings() -> IndexerView {
    IndexerView {
        paths: Seq::empty(),
        language: Language::Cpp,
        follow_symlinks: false,
        threads: None,
        reference_mode: ReferenceMode::Calls,
        include_reference_context: false,
    }
}

impl IndexerBuilder {
    /// A builder with the default settings.
    fn new() -> (r: Self)
        ensures
            r@ == default_settings(),
    {
        let r = IndexerBuilder {
            paths: Vec::new(),
            language: Language::Cpp,
            follow_symlinks: false,
            threads: None,
            reference_mode: ReferenceMode::Calls,
            include_reference_context: false,
        };
        assert(r@.paths =~= Seq::empty());
        r
    }

    /// Add a directory to scan for source files.
    pub fn add_directory(self, path: &str) -> (r: Self)
        ensures
            r@ == (IndexerView { paths: self@.paths.push(path@), ..self@ }),
    {
        let mut paths = self.paths;
        let p = path.to_owned();
        proof {
            text::lemma_views_push(paths@, p);
        }
        paths.push(p);
        IndexerBuilder {
            paths,
            language: self.language,
            follow_symlinks: self.follow_symlinks,
            threads: self.threads,
            reference_mode: self.reference_mode,
            include_reference_context: self.include_reference_context,
        }
    }

    /// Set the language to parse.
    pub fn language(self, lang: Language) -> (r: Self)
        ensures
            r@ == (IndexerView { language: lang, ..self@ }),
    {
        IndexerBuilder { language: lang, ..self }
    }

    /// Follow symbolic links when scanning directories.
    pub fn follow_symlinks(self, follow: bool) -> (r: Self)
        ensures
            r@ == (IndexerView { follow_symlinks: follow, ..self@ }),
    {
        IndexerBuilder { follow_symlinks: follow, ..self }
    }

    /// Set the number of parser worker threads. `0` means use the default.
    pub fn threads(self, threads: usize) -> (r: Self)
        ensures
            r@ == (IndexerView {
                threads: if threads > 0 {
                    Some(threads)
                } else {
                    None
                },
                ..self@
            }),
    {
        let threads: Option<usize> = if threads > 0 {
            Some(threads)
        } else {
            None
        };
        IndexerBuilder { threads, ..self }
    }

    /// Store source-line context on every reference.
    ///
    /// This is disabled by default because snippets can be fetched lazily and large codebases
    /// can contain millions of references.
    pub fn reference_context(self, keep: bool) -> (r: Self)
        ensures
            r@ == (IndexerView { include_reference_context: keep, ..self@ }),
    {
        IndexerBuilder { include_reference_context: keep, ..self }
    }

    /// Set how much reference data to collect.
    pub fn reference_mode(self, mode: ReferenceMode) -> (r: Self)
        ensures
            r@ == (IndexerView { reference_mode: mode, ..self@ }),
    {
        IndexerBuilder { reference_mode: mode, ..self }
    }

    /// Build the [Indexer].
    pub fn build(self) -> (r: Indexer)
        ensures
            r@ == self@,
    {
        Indexer {
            paths: self.paths,
            language: self.language,
            follow_symlinks: self.follow_symlinks,
            threads: self.threads,
            reference_mode: self.reference_mode,
            include_reference_context: self.include_reference_context,
        }
    }
}

/// Indexes a C/C++ codebase and produces an in-memory [Index].
pub struct Indexer {
    pub paths: Vec<String>,
    pub language: Language,
    pub follow_symlinks: bool,
    pub threads: Option<usize>,
    pub reference_mode: ReferenceMode,
    pub include_reference_context: bool,
}

impl View for Indexer {
    type V = IndexerView;

    open spec fn view(&self) -> IndexerView {
        IndexerView {
            paths: text::views(self.paths@),
            language: self.language,
            follow_symlinks: self.follow_symlinks,
            threads: self.threads,
            reference_mode: self.reference_mode,
            include_reference_context: self.include_reference_context,
        }
    }
}

/// The parser for a language.
pub open spec fn parser_for(s: IndexerView) -> CppParser {
    CppParser {
        grammar: s.language,
        reference_mode: s.reference_mode,
        include_reference_context: s.include_reference_context,
    }
}

impl Language {
    /// The parser for the language.
    pub fn parser(&self, reference_mode: ReferenceMode, include_reference_context: bool) -> (r:
        CppParser)
        ensures
            r == (CppParser { grammar: *self, reference_mode, include_reference_context }),
    {
        match self {
            Language::C => CppParser::new_c_with_options(
                reference_mode,
                include_reference_context,
            ),
            Language::Cpp => CppParser::new_cpp_with_options(
                reference_mode,
                include_reference_context,
            ),
        }
    }

    /// Whether files with an extension hold the language. Case does not matter.
    pub open spec fn has_extension(self, e: Seq<char>) -> bool {
        let low = text::ascii_lowered(e);
        ||| low == "c"@
        ||| low == "h"@
        ||| self == Language::Cpp && (low == "cpp"@ || low == "cc"@ || low == "cxx"@ || low
            == "c++"@ || low == "hpp"@ || low == "hh"@ || low == "hxx"@ || low == "h++"@)
    }

    /// Whether files with an extension hold the language. Case does not matter.
    pub fn accepts_extension(&self, e: &str) -> (r: bool)
        ensures
            r == self.has_extension(e@),
    {
        let lowered = to_ascii_lower(e);
        let low = lowered.as_str();
        if same(low, "c") || same(low, "h") {
            return true;
        }
        *self == Language::Cpp && (same(low, "cpp") || same(low, "cc") || same(low, "cxx") || same(
            low,
            "c++",
        ) || same(low, "hpp") || same(low, "hh") || same(low, "hxx") || same(low, "h++"))
    }
}

/// Whether a file is one of the language, by its extension.
pub open spec fn is_source(path: Seq<char>, language: Language) -> bool {
    paths::extension(path) matches Some(e) && language.has_extension(e)
}

/// Whether a file is one of the language, by its extension.
pub fn is_supported_extension(path: &str, language: Language) -> (r: bool)
    ensures
        r == is_source(path@, language),
{
    match extension_of(path) {
        Some(e) => language.accepts_extension(e.as_str()),
        None => false,
    }
}

/// The names of directories that hold no sources of their own.
pub open spec fn is_skipped_directory(name: Seq<char>) -> bool {
    name == "build"@ || name == "cmake-build-debug"@ || name == "cmake-build-release"@ || name
        == "bazel-bin"@ || name == "bazel-out"@ || name == "bazel-testlogs"@ || name
        == "node_modules"@ || name == "third_party"@ || name == "third-party"@
}

/// Whether an entry is passed over: hidden ones, and directories of built and foreign code.
pub open spec fn is_skipped(name: Seq<char>, is_dir: bool) -> bool {
    ||| text::begins_with(name, "."@) && name != "."@ && name != ".."@
    ||| is_dir && is_skipped_directory(name)
}

/// Whether an entry is passed over.
pub fn should_skip_entry(name: &str, is_dir: bool) -> (r: bool)
    ensures
        r == is_skipped(name@, is_dir),
{
    if starts_with(name, ".") && !same(name, ".") && !same(name, "..") {
        return true;
    }
    if !is_dir {
        return false;
    }
    same(name, "build") || same(name, "cmake-build-debug") || same(name, "cmake-build-release")
        || same(name, "bazel-bin") || same(name, "bazel-out") || same(name, "bazel-testlogs")
        || same(name, "node_modules") || same(name, "third_party") || same(name, "third-party")
}

/// The number of workers: as many as asked for, else as many as the machine offers, at least
/// one and no more than there are files.
pub open spec fn workers(requested: Option<usize>, available: usize, files: usize) -> usize {
    let wanted = match requested {
        Some(n) => n,
        None => available,
    };
    let most: usize = if files > 1 {
        files
    } else {
        1
    };
    if wanted < 1 {
        1
    } else if wanted > most {
        most
    } else {
        wanted
    }
}

/// The number of workers.
pub fn worker_count(requested: Option<usize>, available: usize, files: usize) -> (r: usize)
    ensures
        r == workers(requested, available, files),
        1 <= r,
        files > 0 ==> r <= files,
{
    let wanted: usize = match requested {
        Some(n) => n,
        None => available,
    };
    let most: usize = if files > 1 {
        files
    } else {
        1
    };
    if wanted < 1 {
        1
    } else if wanted > most {
        most
    } else {
        wanted
    }
}

/// The symbols of a file with its position in the file list.
pub struct ParsedFile {
    pub index: usize,
    pub symbols: FileSymbols,
}

/// The symbols of a file with its position in the file list.
pub struct ParsedFileView {
    pub index: usize,
    pub symbols: FileSymbolsView,
}

impl View for ParsedFile {
    type V = ParsedFileView;

    open spec fn view(&self) -> ParsedFileView {
        ParsedFileView { index: self.index, symbols: self.symbols@ }
    }
}

/// What a worker has parsed.
pub struct ParsedFiles {
    pub files: Vec<ParsedFile>,
    pub bytes_read: u64,
    pub lossy_decoded_files: usize,
}

/// A file of the list with the bytes that were read of it.
pub struct ReadFileView {
    pub path: Seq<char>,
    pub content: Seq<u8>,
}

/// How many bytes were read of the files at some positions of the list.
pub open spec fn bytes_of(list: Seq<ReadFileView>, files: Seq<ParsedFileView>) -> int
    decreases files.len(),
{
    if files.len() == 0 {
        0
    } else {
        bytes_of(list, files.drop_last()) + list[files.last().index as int].content.len()
    }
}

/// One where the bytes are no valid text, none otherwise.
pub open spec fn lossy_count(content: Seq<u8>) -> int {
    if valid_utf8(content) {
        0
    } else {
        1
    }
}

/// How many of the files at some positions of the list had to be decoded lossily.
pub open spec fn lossy_of(list: Seq<ReadFileView>, files: Seq<ParsedFileView>) -> int
    decreases files.len(),
{
    if files.len() == 0 {
        0
    } else {
        lossy_of(list, files.drop_last()) + lossy_count(
            list[files.last().index as int].content,
        )
    }
}

/// Whether what a worker holds is what parsing files of the list gives, with the counts of those
/// files.
pub open spec fn is_batch(
    parser: CppParser,
    list: Seq<ReadFileView>,
    batch: ParsedFiles,
) -> bool {
    let files = text::views(batch.files@);
    &&& forall|i: int|
        0 <= i < files.len() ==> (#[trigger] files[i]).index < list.len() && parser.parsed(
            list[files[i].index as int].path,
            source::lossy_text(list[files[i].index as int].content),
        ) == Ok::<_, Seq<char>>(files[i].symbols)
    &&& batch.bytes_read == bytes_of(list, files)
    &&& batch.lossy_decoded_files == lossy_of(list, files)
}

/// Parses one file of the list.
pub fn parse_one(parser: &CppParser, index: usize, path: &str, source: &str) -> (r: Result<
    ParsedFile,
    String,
>)
    ensures
        match (r, parser.parsed(path@, source@)) {
            (Ok(f), Ok(s)) => f@ == (ParsedFileView { index, symbols: s }),
            (Err(e), Err(m)) => e@ == "failed to parse "@ + path@ + ": "@ + m,
            _ => false,
        },
{
    match parser.parse_file(path, source) {
        Ok(symbols) => Ok(ParsedFile { index, symbols }),
        Err(e) => {
            let mut message = "failed to parse ".to_owned();
            message.append(path);
            message.append(": ");
            message.append(e.as_str());
            Err(message)
        },
    }
}

impl ParsedFiles {
    /// Nothing parsed so far.
    pub fn new() -> (r: Self)
        ensures
            r.files@.len() == 0,
            r.bytes_read == 0,
            r.lossy_decoded_files == 0,
            forall|parser: CppParser, list: Seq<ReadFileView>| #[trigger] is_batch(parser, list, r),
    {
        ParsedFiles { files: Vec::new(), bytes_read: 0, lossy_decoded_files: 0 }
    }

    /// Parses the content of one file of the list and adds what was found, together with the
    /// number of its bytes. Tells whether some of them had to be replaced.
    pub fn parse_next(&mut self, parser: &CppParser, index: usize, path: &str, content: &[u8]) -> (r:
        Result<bool, String>)
        requires
            old(self).bytes_read + content@.len() <= u64::MAX,
            old(self).lossy_decoded_files < usize::MAX,
        ensures
            final(self).bytes_read == old(self).bytes_read + content@.len(),
            final(self).lossy_decoded_files == old(self).lossy_decoded_files + lossy_count(
                content@,
            ),
            match (r, parser.parsed(path@, source::lossy_text(content@))) {
                (Ok(replaced), Ok(s)) => replaced == !valid_utf8(content@) && text::views(
                    final(self).files@,
                ) == text::views(old(self).files@).push(ParsedFileView { index, symbols: s }),
                (Err(e), Err(m)) => e@ == "failed to parse "@ + path@ + ": "@ + m
                    && final(self).files@ == old(self).files@,
                _ => false,
            },
            r is Ok ==> forall|list: Seq<ReadFileView>|
                index < list.len() && list[index as int] == (ReadFileView {
                    path: path@,
                    content: content@,
                }) && #[trigger] is_batch(*parser, list, *old(self)) ==> is_batch(
                    *parser,
                    list,
                    *final(self),
                ),
    {
        let decoded = decode_source(content);
        self.bytes_read = self.bytes_read + decoded.bytes as u64;
        if decoded.decoded_lossy {
            self.lossy_decoded_files = self.lossy_decoded_files + 1;
        }
        match parse_one(parser, index, path, decoded.source.as_str()) {
            Ok(file) => {
                proof {
                    text::lemma_views_push(self.files@, file);
                }
                self.files.push(file);
                proof {
                    let before = text::views(old(self).files@);
                    let after = text::views(self.files@);
                    assert(after.drop_last() =~= before);
                    assert forall|list: Seq<ReadFileView>|
                        index < list.len() && list[index as int] == (ReadFileView {
                            path: path@,
                            content: content@,
                        }) && #[trigger] is_batch(*parser, list, *old(self)) implies is_batch(
                        *parser,
                        list,
                        *self,
                    ) by {
                        assert forall|i: int| 0 <= i < after.len() implies (
                        #[trigger] after[i]).index < list.len() && parser.parsed(
                            list[after[i].index as int].path,
                            source::lossy_text(list[after[i].index as int].content),
                        ) == Ok::<_, Seq<char>>(after[i].symbols) by {
                            if i < before.len() {
                                assert(after[i] == before[i]);
                            }
                        }
                    }
                }
                Ok(decoded.decoded_lossy)
            },
            Err(e) => Err(e),
        }
    }
}

/// A file put behind those that come no later.
pub open spec fn placed(s: Seq<ParsedFileView>, f: ParsedFileView) -> Seq<ParsedFileView>
    decreases s.len(),
{
    if s.len() == 0 || s.last().index <= f.index {
        s.push(f)
    } else {
        placed(s.drop_last(), f).push(s.last())
    }
}

/// Files in the order of their positions. Files with one position stay in their order.
pub open spec fn ordered(s: Seq<ParsedFileView>) -> Seq<ParsedFileView>
    decreases s.len(),
{
    if s.len() == 0 {
        s
    } else {
        placed(ordered(s.drop_last()), s.last())
    }
}

/// The files of all batches, one batch behind the other.
pub open spec fn joined_files(batches: Seq<ParsedFiles>) -> Seq<ParsedFileView>
    decreases batches.len(),
{
    if batches.len() == 0 {
        Seq::empty()
    } else {
        joined_files(batches.drop_last()) + text::views(batches.last().files@)
    }
}

/// The bytes that all batches have read.
pub open spec fn total_bytes(batches: Seq<ParsedFiles>) -> int
    decreases batches.len(),
{
    if batches.len() == 0 {
        0
    } else {
        total_bytes(batches.drop_last()) + batches.last().bytes_read
    }
}

/// The files of all batches that had to be decoded lossily.
pub open spec fn total_lossy(batches: Seq<ParsedFiles>) -> int
    decreases batches.len(),
{
    if batches.len() == 0 {
        0
    } else {
        total_lossy(batches.drop_last()) + batches.last().lossy_decoded_files
    }
}

/// Inserting a file in front of the last ones.
proof fn lemma_placed(s: Seq<ParsedFileView>, f: ParsedFileView, k: int)
    requires
        0 <= k <= s.len(),
        forall|j: int| k <= j < s.len() ==> (#[trigger] s[j]).index > f.index,
        k > 0 ==> s[k - 1].index <= f.index,
    ensures
        placed(s, f) == s.insert(k, f),
    decreases s.len(),
{
    if k == s.len() {
        assert(s.insert(k, f) =~= s.push(f));
    } else {
        lemma_placed(s.drop_last(), f, k);
        assert(s.insert(k, f) =~= s.drop_last().insert(k, f).push(s.last()));
    }
}

/// Puts a file behind those that come no later.
fn place(files: &mut Vec<ParsedFile>, f: ParsedFile)
    ensures
        text::views(final(files)@) == placed(text::views(old(files)@), f@),
{
    let ghost before = text::views(files@);
    let mut k: usize = files.len();
    while k > 0 && files[k - 1].index > f.index
        invariant
            before == text::views(files@),
            k <= files@.len(),
            forall|j: int| k <= j < before.len() ==> (#[trigger] before[j]).index > f.index,
        decreases k,
    {
        assert(before[k - 1].index == files@[k - 1].index);
        k = k - 1;
    }
    proof {
        if k > 0 {
            assert(before[k - 1].index == files@[k - 1].index);
        }
        lemma_placed(before, f@, k as int);
    }
    let ghost kept = files@;
    files.insert(k, f);
    assert(text::views(files@) =~= before.insert(k as int, f@));
}

/// Adds the files of one batch, in the order of their positions.
fn place_all(files: &mut Vec<ParsedFile>, batch: Vec<ParsedFile>, before: Ghost<Seq<ParsedFileView>>)
    requires
        text::views(old(files)@) == ordered(before@),
    ensures
        text::views(final(files)@) == ordered(before@ + text::views(batch@)),
{
    let ghost all = text::views(batch@);
    let mut rest = batch;
    let mut reversed: Vec<ParsedFile> = Vec::new();
    while rest.len() > 0
        invariant
            all == text::views(rest@) + text::views(reversed@).reverse(),
        decreases rest@.len(),
    {
        let ghost old_rest = text::views(rest@);
        let ghost old_reversed = text::views(reversed@);
        if let Some(f) = rest.pop() {
            proof {
                text::lemma_views_push(reversed@, f);
                assert(old_rest =~= text::views(rest@).push(f@));
            }
            reversed.push(f);
            assert(text::views(rest@) + text::views(reversed@).reverse() =~= old_rest
                + old_reversed.reverse());
        }
    }
    assert(text::views(reversed@).reverse() =~= all);
    let ghost mut done = Seq::<ParsedFileView>::empty();
    assert(before@ + done =~= before@);
    while reversed.len() > 0
        invariant
            text::views(files@) == ordered(before@ + done),
            done + text::views(reversed@).reverse() == all,
        decreases reversed@.len(),
    {
        let ghost old_reversed = text::views(reversed@);
        if let Some(f) = reversed.pop() {
            place(files, f);
            proof {
                assert(old_reversed =~= text::views(reversed@).push(f@));
                assert((before@ + done.push(f@)).drop_last() =~= before@ + done);
                assert(done.push(f@) + text::views(reversed@).reverse() =~= done
                    + old_reversed.reverse());
                done = done.push(f@);
            }
        }
    }
    assert(done =~= all);
}

/// Sums over the first batches are no larger than over all.
proof fn lemma_batch_totals(batches: Seq<ParsedFiles>, i: int)
    requires
        0 <= i < batches.len(),
    ensures
        total_bytes(batches.take(i + 1)) == total_bytes(batches.take(i)) + batches[i].bytes_read,
        total_lossy(batches.take(i + 1)) == total_lossy(batches.take(i))
            + batches[i].lossy_decoded_files,
        joined_files(batches.take(i + 1)) == joined_files(batches.take(i)) + text::views(
            batches[i].files@,
        ),
        total_bytes(batches.take(i + 1)) <= total_bytes(batches),
        total_lossy(batches.take(i + 1)) <= total_lossy(batches),
    decreases batches.len() - i,
{
    assert(batches.take(i + 1).drop_last() =~= batches.take(i));
    if i + 1 == batches.len() {
        assert(batches.take(i + 1) =~= batches);
    } else {
        lemma_batch_totals(batches, i + 1);
    }
}

/// What all workers have parsed, or the message of the first that failed.
pub open spec fn all_reported(results: Seq<Result<ParsedFiles, String>>) -> Result<
    Seq<ParsedFiles>,
    Seq<char>,
>
    decreases results.len(),
{
    if results.len() == 0 {
        Ok(Seq::empty())
    } else {
        match (all_reported(results.drop_last()), results.last()) {
            (Ok(before), Ok(batch)) => Ok(before.push(batch)),
            (Ok(_), Err(e)) => Err(e@),
            (Err(m), _) => Err(m),
        }
    }
}

/// Once a worker has failed, its message stays.
proof fn lemma_failure_stays(results: Seq<Result<ParsedFiles, String>>, i: int)
    requires
        0 <= i <= results.len(),
        all_reported(results.take(i)) is Err,
    ensures
        all_reported(results) == all_reported(results.take(i)),
    decreases results.len() - i,
{
    if i == results.len() {
        assert(results.take(i) =~= results);
    } else {
        assert(results.take(i + 1).drop_last() =~= results.take(i));
        lemma_failure_stays(results, i + 1);
    }
}

/// One worker that fails, be it that a file cannot be read or cannot be parsed, fails the run.
pub proof fn law_failed_worker_fails_the_run(
    results: Seq<Result<ParsedFiles, String>>,
    i: int,
)
    requires
        0 <= i < results.len(),
        results[i] is Err,
    ensures
        all_reported(results) is Err,
{
    assert(results.take(i + 1).last() == results[i]);
    lemma_failure_stays(results, i + 1);
}

/// What all workers have parsed, in the order in which they reported; the message of the first
/// that failed, where one did.
pub fn collect_batches(results: Vec<Result<ParsedFiles, String>>) -> (r: Result<
    Vec<ParsedFiles>,
    String,
>)
    ensures
        match (r, all_reported(results@)) {
            (Ok(batches), Ok(all)) => batches@ == all,
            (Err(e), Err(m)) => e@ == m,
            _ => false,
        },
{
    let ghost all = results@;
    let mut batches: Vec<ParsedFiles> = Vec::new();
    let ghost mut i: int = 0;
    assert(all.take(0) =~= Seq::empty());
    for result in it: results
        invariant
            it.seq() == all,
            i == it.index(),
            all_reported(all.take(i)) == Ok::<_, Seq<char>>(batches@),
    {
        proof {
            assert(all.take(i + 1).drop_last() =~= all.take(i));
            assert(all.take(i + 1).last() == result);
        }
        match result {
            Ok(batch) => {
                batches.push(batch);
            },
            Err(e) => {
                proof {
                    lemma_failure_stays(all, i + 1);
                }
                return Err(e);
            },
        }
        proof {
            i = i + 1;
        }
    }
    assert(all.take(all.len() as int) =~= all);
    Ok(batches)
}

/// Whether the counts of all workers can be added up.
pub fn can_merge(batches: &Vec<ParsedFiles>) -> (r: bool)
    ensures
        r == (total_bytes(batches@) <= u64::MAX && total_lossy(batches@) <= usize::MAX),
{
    let mut bytes: u64 = 0;
    let mut lossy: usize = 0;
    let mut i: usize = 0;
    assert(batches@.take(0) =~= Seq::empty());
    while i < batches.len()
        invariant
            i <= batches@.len(),
            bytes == total_bytes(batches@.take(i as int)),
            lossy == total_lossy(batches@.take(i as int)),
        decreases batches@.len() - i,
    {
        proof {
            lemma_batch_totals(batches@, i as int);
        }
        let batch = &batches[i];
        match (bytes.checked_add(batch.bytes_read), lossy.checked_add(batch.lossy_decoded_files)) {
            (Some(b), Some(l)) => {
                bytes = b;
                lossy = l;
            },
            _ => {
                return false;
            },
        }
        i = i + 1;
    }
    assert(batches@.take(i as int) =~= batches@);
    true
}

/// Puts the results of all workers together, in the order of the file list.
pub fn merge_batches(batches: Vec<ParsedFiles>) -> (r: ParsedFiles)
    requires
        total_bytes(batches@) <= u64::MAX,
        total_lossy(batches@) <= usize::MAX,
    ensures
        text::views(r.files@) == ordered(joined_files(batches@)),
        r.bytes_read == total_bytes(batches@),
        r.lossy_decoded_files == total_lossy(batches@),
{
    let ghost all = batches@;
    let mut files: Vec<ParsedFile> = Vec::new();
    let mut bytes_read: u64 = 0;
    let mut lossy_decoded_files: usize = 0;
    let ghost mut i: int = 0;
    assert(text::views(files@) =~= ordered(joined_files(all.take(0))));
    for batch in it: batches
        invariant
            it.seq() == all,
            i == it.index(),
            total_bytes(all) <= u64::MAX,
            total_lossy(all) <= usize::MAX,
            text::views(files@) == ordered(joined_files(all.take(i))),
            bytes_read == total_bytes(all.take(i)),
            lossy_decoded_files == total_lossy(all.take(i)),
    {
        proof {
            lemma_batch_totals(all, i);
        }
        let ghost before = joined_files(all.take(i));
        bytes_read = bytes_read + batch.bytes_read;
        lossy_decoded_files = lossy_decoded_files + batch.lossy_decoded_files;
        place_all(&mut files, batch.files, Ghost(before));
        proof {
            i = i + 1;
        }
    }
    assert(all.take(all.len() as int) =~= all);
    ParsedFiles { files, bytes_read, lossy_decoded_files }
}

/// Whether files come in the order of their positions.
pub open spec fn is_ordered(s: Seq<ParsedFileView>) -> bool {
    forall|i: int, j: int|
        0 <= i < j < s.len() ==> (#[trigger] s[i]).index <= (#[trigger] s[j]).index
}

proof fn lemma_placed_ordered(s: Seq<ParsedFileView>, f: ParsedFileView)
    requires
        is_ordered(s),
    ensures
        is_ordered(placed(s, f)),
        placed(s, f).to_multiset() =~= s.to_multiset().insert(f),
        placed(s, f).len() == s.len() + 1,
        s.len() > 0 && s.last().index > f.index ==> placed(s, f).last() == s.last(),
        forall|i: int|
            0 <= i < placed(s, f).len() ==> (#[trigger] placed(s, f)[i]).index <= f.index || (
            s.len() > 0 && placed(s, f)[i].index <= s.last().index),
    decreases s.len(),
{
    broadcast use vstd::seq_lib::group_to_multiset_ensures;

    if s.len() == 0 || s.last().index <= f.index {
        assert forall|i: int, j: int| 0 <= i < j < placed(s, f).len() implies (
        #[trigger] placed(s, f)[i]).index <= (#[trigger] placed(s, f)[j]).index by {
            if j == s.len() && i < s.len() - 1 {
                assert(s[i].index <= s[s.len() - 1].index);
            }
        }
    } else {
        let short = s.drop_last();
        assert(is_ordered(short)) by {
            assert forall|i: int, j: int| 0 <= i < j < short.len() implies (#[trigger] short[i]).index
                <= (#[trigger] short[j]).index by {
                assert(short[i] == s[i] && short[j] == s[j]);
            }
        }
        lemma_placed_ordered(short, f);
        let p = placed(short, f);
        assert forall|i: int| 0 <= i < p.len() implies (#[trigger] p[i]).index <= s.last().index by {
            if short.len() > 0 {
                assert(s[short.len() - 1].index <= s[s.len() - 1].index);
                assert(short.last() == s[short.len() - 1]);
            }
        }
        assert(placed(s, f) == p.push(s.last()));
        assert(s =~= short.push(s.last()));
    }
}

/// Whatever the order in which workers hand in their files, the result holds each of them once,
/// in the order of the file list.
pub proof fn law_merged_files_are_ordered(s: Seq<ParsedFileView>)
    ensures
        is_ordered(ordered(s)),
        ordered(s).to_multiset() =~= s.to_multiset(),
    decreases s.len(),
{
    broadcast use vstd::seq_lib::group_to_multiset_ensures;

    if s.len() > 0 {
        law_merged_files_are_ordered(s.drop_last());
        lemma_placed_ordered(ordered(s.drop_last()), s.last());
        assert(s =~= s.drop_last().push(s.last()));
    }
}

/// Whether no two files have one position.
pub open spec fn are_distinct(s: Seq<ParsedFileView>) -> bool {
    forall|i: int, j: int|
        0 <= i < j < s.len() ==> (#[trigger] s[i]).index != (#[trigger] s[j]).index
}

/// Whether no position occurs in two files of a collection.
pub open spec fn share_no_position(m: vstd::multiset::Multiset<ParsedFileView>) -> bool {
    forall|a: ParsedFileView, b: ParsedFileView|
        #[trigger] m.contains(a) && #[trigger] m.contains(b) && a.index == b.index ==> a == b
            && m.count(a) == 1
}

/// Files without a common position, in a sequence.
proof fn lemma_distinct(s: Seq<ParsedFileView>)
    ensures
        are_distinct(s) <==> share_no_position(s.to_multiset()),
    decreases s.len(),
{
    broadcast use vstd::seq_lib::group_to_multiset_ensures;
    broadcast use vstd::multiset::group_multiset_axioms;

    let m = s.to_multiset();
    if s.len() > 0 {
        let short = s.drop_last();
        let last = s.last();
        lemma_distinct(short);
        assert(s =~= short.push(last));
        let n = short.to_multiset();
        assert(m =~= n.insert(last));
        if are_distinct(s) {
            assert forall|i: int, j: int| 0 <= i < j < short.len() implies (
            #[trigger] short[i]).index != (#[trigger] short[j]).index by {
                assert(s[i].index != s[j].index);
            }
            assert forall|a: ParsedFileView| #[trigger] n.contains(a) implies a.index
                != last.index by {
                assert(short.contains(a));
                let k = choose|k: int| 0 <= k < short.len() && short[k] == a;
                assert(s[k].index != s[s.len() - 1].index);
            }
            assert(!n.contains(last));
            assert forall|a: ParsedFileView, b: ParsedFileView|
                #[trigger] m.contains(a) && #[trigger] m.contains(b) && a.index == b.index implies a
                == b && m.count(a) == 1 by {
                if a != last {
                    assert(n.contains(a));
                    if b != last {
                        assert(n.contains(b));
                    }
                } else if b != last {
                    assert(n.contains(b));
                }
            }
        }
        if share_no_position(m) {
            assert forall|i: int, j: int| 0 <= i < j < s.len() implies (#[trigger] s[i]).index != (
            #[trigger] s[j]).index by {
                if s[i].index == s[j].index {
                    assert(s.contains(s[i]) && s.contains(s[j]));
                    assert(m.contains(s[i]) && m.contains(s[j]));
                    assert(m.count(s[i]) == 1);
                    if j == s.len() - 1 {
                        assert(short[i] == s[i]);
                        assert(short.contains(s[i]));
                        assert(n.contains(s[i]));
                        assert(m.count(last) == n.count(last) + 1);
                    } else {
                        assert(short[i] == s[i] && short[j] == s[j]);
                        assert(share_no_position(n)) by {
                            assert forall|a: ParsedFileView, b: ParsedFileView|
                                #[trigger] n.contains(a) && #[trigger] n.contains(b) && a.index
                                    == b.index implies a == b && n.count(a) == 1 by {
                                assert(m.contains(a) && m.contains(b));
                            }
                        }
                    }
                }
            }
        }
    }
}

/// There is one way to put files without a common position in order.
proof fn lemma_one_order(s: Seq<ParsedFileView>, t: Seq<ParsedFileView>)
    requires
        is_ordered(s),
        is_ordered(t),
        are_distinct(s),
        are_distinct(t),
        s.to_multiset() =~= t.to_multiset(),
    ensures
        s == t,
    decreases s.len(),
{
    broadcast use vstd::seq_lib::group_to_multiset_ensures;

    assert(s.len() == s.to_multiset().len() && t.len() == t.to_multiset().len());
    if s.len() == 0 {
        assert(s =~= t);
    } else {
        let a = s.last();
        let b = t.last();
        assert(s.contains(a) && t.contains(b));
        assert(t.to_multiset().contains(a) && s.to_multiset().contains(b));
        assert(t.contains(a) && s.contains(b));
        let j = choose|j: int| 0 <= j < t.len() && t[j] == a;
        let k = choose|k: int| 0 <= k < s.len() && s[k] == b;
        if j < t.len() - 1 {
            assert(t[j].index <= t[t.len() - 1].index);
            assert(t[j].index != t[t.len() - 1].index);
            if k < s.len() - 1 {
                assert(s[k].index <= s[s.len() - 1].index);
            }
        }
        assert(a == b);
        let ss = s.drop_last();
        let tt = t.drop_last();
        assert(s =~= ss.push(a) && t =~= tt.push(b));
        assert(s.to_multiset() =~= ss.to_multiset().insert(a));
        assert(t.to_multiset() =~= tt.to_multiset().insert(b));
        assert(ss.to_multiset() =~= s.to_multiset().remove(a));
        assert(tt.to_multiset() =~= t.to_multiset().remove(b));
        assert forall|i: int, j: int| 0 <= i < j < ss.len() implies (#[trigger] ss[i]).index <= (
        #[trigger] ss[j]).index && ss[i].index != ss[j].index by {
            assert(s[i].index <= s[j].index && s[i].index != s[j].index);
        }
        assert forall|i: int, j: int| 0 <= i < j < tt.len() implies (#[trigger] tt[i]).index <= (
        #[trigger] tt[j]).index && tt[i].index != tt[j].index by {
            assert(t[i].index <= t[j].index && t[i].index != t[j].index);
        }
        lemma_one_order(ss, tt);
    }
}

/// How the files were shared among workers, and which worker was done first, does not show in
/// the result: the same files in any order are put together in one way.
pub proof fn law_workers_do_not_show(s: Seq<ParsedFileView>, t: Seq<ParsedFileView>)
    requires
        are_distinct(s),
        s.to_multiset() =~= t.to_multiset(),
    ensures
        ordered(s) == ordered(t),
{
    law_merged_files_are_ordered(s);
    law_merged_files_are_ordered(t);
    lemma_distinct(s);
    lemma_distinct(t);
    lemma_distinct(ordered(s));
    lemma_distinct(ordered(t));
    lemma_one_order(ordered(s), ordered(t));
}

/// Where every position was handed out once, the result has them in turn: the file at each place
/// is the one with that position.
pub proof fn law_merged_files_have_all_positions(s: Seq<ParsedFileView>)
    requires
        are_distinct(s),
        forall|i: int| 0 <= i < s.len() ==> (#[trigger] s[i]).index < s.len(),
    ensures
        ordered(s).len() == s.len(),
        forall|i: int| 0 <= i < s.len() ==> (#[trigger] ordered(s)[i]).index == i,
{
    broadcast use vstd::seq_lib::group_to_multiset_ensures;

    let r = ordered(s);
    law_merged_files_are_ordered(s);
    lemma_distinct(s);
    lemma_distinct(r);
    assert(r.len() == s.len()) by {
        assert(r.to_multiset().len() == r.len());
        assert(s.to_multiset().len() == s.len());
    }
    assert forall|i: int| 0 <= i < r.len() implies (#[trigger] r[i]).index < s.len() by {
        assert(r.contains(r[i]));
        assert(r.to_multiset().contains(r[i]));
        assert(s.contains(r[i]));
        let k = choose|k: int| 0 <= k < s.len() && s[k] == r[i];
        assert(s[k].index < s.len());
    }
    assert forall|i: int| 0 <= i < r.len() implies (#[trigger] r[i]).index == i by {
        lemma_rising(r, i);
        lemma_bounded(r, i);
    }
}

/// Positions that rise are not below their places.
proof fn lemma_rising(s: Seq<ParsedFileView>, i: int)
    requires
        is_ordered(s),
        are_distinct(s),
        0 <= i < s.len(),
    ensures
        s[i].index >= i,
    decreases i,
{
    if i > 0 {
        lemma_rising(s, i - 1);
        assert(s[i - 1].index <= s[i].index && s[i - 1].index != s[i].index);
    }
}

/// Positions that rise and are below their number are not above their places.
proof fn lemma_bounded(s: Seq<ParsedFileView>, i: int)
    requires
        is_ordered(s),
        are_distinct(s),
        forall|k: int| 0 <= k < s.len() ==> (#[trigger] s[k]).index < s.len(),
        0 <= i < s.len(),
    ensures
        s[i].index <= i,
    decreases s.len() - i,
{
    if i + 1 < s.len() {
        lemma_bounded(s, i + 1);
        assert(s[i].index <= s[i + 1].index && s[i].index != s[i + 1].index);
    }
}

/// The symbols of parsed files.
pub open spec fn symbols_of(files: Seq<ParsedFileView>) -> Seq<FileSymbolsView> {
    files.map_values(|f: ParsedFileView| f.symbols)
}

/// The index over parsed files, in their order.
pub fn build_index(parsed: Vec<ParsedFile>) -> (r: Index)
    ensures
        r@ == index::with_references_resolved(
            index::merged(symbols_of(text::views(parsed@))),
        ),
{
    let ghost all = symbols_of(text::views(parsed@));
    let mut builder = IndexBuilder::new();
    let ghost mut i: int = 0;
    assert(all.take(0) =~= Seq::empty());
    let ghost files = parsed@;
    for file in it: parsed
        invariant
            it.seq() == files,
            i == it.index(),
            all == symbols_of(text::views(files)),
            builder@ == index::merged(all.take(i)),
    {
        proof {
            assert(all.take(i + 1).drop_last() =~= all.take(i));
            assert(all.take(i + 1).last() == file.symbols@);
        }
        builder.add_file(file.symbols);
        proof {
            i = i + 1;
        }
    }
    assert(all.take(all.len() as int) =~= all);
    builder.build()
}

/// How long the phases of a run took.
#[derive(Debug, Clone, Copy, PartialEq, Eq, Structural)]
pub struct PhaseTimes {
    pub discover_ms: u128,
    pub parse_ms: u128,
    pub build_ms: u128,
    pub total_ms: u128,
}

/// The counts and timings of a run over an index.
pub fn run_metrics(
    index: &Index,
    threads: usize,
    files_discovered: usize,
    files_indexed: usize,
    bytes_read: u64,
    lossy_decoded_files: usize,
    times: PhaseTimes,
) -> (r: IndexMetrics)
    ensures
        r == (IndexMetrics {
            threads,
            files_discovered,
            files_indexed,
            bytes_read,
            lossy_decoded_files,
            definitions: index@.definitions.len() as usize,
            references: index@.references.len() as usize,
            calls: index@.calls.len() as usize,
            inheritance_edges: index@.inherits.len() as usize,
            discover_ms: times.discover_ms,
            parse_ms: times.parse_ms,
            build_ms: times.build_ms,
            total_ms: times.total_ms,
        }),
{
    IndexMetrics {
        threads,
        files_discovered,
        files_indexed,
        bytes_read,
        lossy_decoded_files,
        definitions: index.definition_count(),
        references: index.reference_count(),
        calls: index.calls().len(),
        inheritance_edges: index.inherits().len(),
        discover_ms: times.discover_ms,
        parse_ms: times.parse_ms,
        build_ms: times.build_ms,
        total_ms: times.total_ms,
    }
}

/// The text of a file of the list.
pub struct NamedSource {
    pub path: String,
    pub source: String,
}

/// The text of a file of the list.
pub struct NamedSourceView {
    pub path: Seq<char>,
    pub source: Seq<char>,
}

impl View for NamedSource {
    type V = NamedSourceView;

    open spec fn view(&self) -> NamedSourceView {
        NamedSourceView { path: self.path@, source: self.source@ }
    }
}

/// What parsing files one after the other gives: the symbols of all of them, or the message
/// about the first that could not be parsed.
pub open spec fn parsed_sources(parser: CppParser, sources: Seq<NamedSourceView>) -> Result<
    Seq<FileSymbolsView>,
    Seq<char>,
>
    decreases sources.len(),
{
    if sources.len() == 0 {
        Ok(Seq::empty())
    } else {
        match parsed_sources(parser, sources.drop_last()) {
            Ok(before) => match parser.parsed(sources.last().path, sources.last().source) {
                Ok(s) => Ok(before.push(s)),
                Err(m) => Err("failed to parse "@ + sources.last().path + ": "@ + m),
            },
            Err(e) => Err(e),
        }
    }
}

/// Once a file could not be parsed, the message about it stays.
proof fn lemma_first_failure(parser: CppParser, sources: Seq<NamedSourceView>, i: int)
    requires
        0 <= i <= sources.len(),
        parsed_sources(parser, sources.take(i)) is Err,
    ensures
        parsed_sources(parser, sources) == parsed_sources(parser, sources.take(i)),
    decreases sources.len() - i,
{
    if i == sources.len() {
        assert(sources.take(i) =~= sources);
    } else {
        assert(sources.take(i + 1).drop_last() =~= sources.take(i));
        lemma_first_failure(parser, sources, i + 1);
    }
}

/// One file that cannot be parsed fails the list.
pub proof fn law_unparsable_source_fails(
    parser: CppParser,
    sources: Seq<NamedSourceView>,
    i: int,
)
    requires
        0 <= i < sources.len(),
        parser.parsed(sources[i].path, sources[i].source) is Err,
    ensures
        parsed_sources(parser, sources) is Err,
{
    assert(sources.take(i + 1).last() == sources[i]);
    lemma_first_failure(parser, sources, i + 1);
}

/// Whether every file of a list was parsed, each to what the parser makes of it.
pub open spec fn all_parsed(
    parser: CppParser,
    sources: Seq<NamedSourceView>,
    files: Seq<FileSymbolsView>,
) -> bool {
    &&& files.len() == sources.len()
    &&& forall|i: int|
        0 <= i < files.len() ==> parser.parsed(sources[i].path, sources[i].source) == Ok::<
            _,
            Seq<char>,
        >(#[trigger] files[i])
}

/// Parsing one after the other succeeds where every file can be parsed.
proof fn lemma_all_parsed(
    parser: CppParser,
    sources: Seq<NamedSourceView>,
    files: Seq<FileSymbolsView>,
)
    requires
        all_parsed(parser, sources, files),
    ensures
        parsed_sources(parser, sources) == Ok::<_, Seq<char>>(files),
    decreases sources.len(),
{
    if sources.len() == 0 {
        assert(files =~= Seq::empty());
    } else {
        let short = files.drop_last();
        assert forall|i: int| 0 <= i < short.len() implies parser.parsed(
            sources.drop_last()[i].path,
            sources.drop_last()[i].source,
        ) == Ok::<_, Seq<char>>(#[trigger] short[i]) by {
            assert(short[i] == files[i]);
        }
        lemma_all_parsed(parser, sources.drop_last(), short);
        assert(files[files.len() - 1] == files.last());
        assert(files =~= short.push(files.last()));
    }
}

/// Where the files that workers hand in hold, for each position once, what parsing the source
/// there gives, putting them together gives what parsing the sources one after the other does:
/// the number of workers and the order in which they are done do not show.
pub proof fn law_workers_parse_the_sources(
    parser: CppParser,
    sources: Seq<NamedSourceView>,
    files: Seq<ParsedFileView>,
)
    requires
        are_distinct(files),
        files.len() == sources.len(),
        forall|i: int|
            0 <= i < files.len() ==> (#[trigger] files[i]).index < sources.len() && parser.parsed(
                sources[files[i].index as int].path,
                sources[files[i].index as int].source,
            ) == Ok::<_, Seq<char>>(files[i].symbols),
    ensures
        ordered(files).len() == sources.len(),
        forall|i: int|
            0 <= i < sources.len() ==> (#[trigger] ordered(files)[i]).index == i && ordered(
                files,
            )[i].symbols.file == sources[i].path,
        parsed_sources(parser, sources) == Ok::<_, Seq<char>>(symbols_of(ordered(files))),
{
    broadcast use vstd::seq_lib::group_to_multiset_ensures;

    let r = ordered(files);
    let symbols = symbols_of(r);
    law_merged_files_are_ordered(files);
    law_merged_files_have_all_positions(files);
    assert forall|i: int| 0 <= i < symbols.len() implies parser.parsed(
        sources[i].path,
        sources[i].source,
    ) == Ok::<_, Seq<char>>(#[trigger] symbols[i]) by {
        assert(symbols[i] == r[i].symbols);
        assert(r.contains(r[i]));
        assert(r.to_multiset().contains(r[i]));
        assert(files.contains(r[i]));
        let k = choose|k: int| 0 <= k < files.len() && files[k] == r[i];
        assert(files[k].index == i);
    }
    assert forall|i: int| 0 <= i < sources.len() implies (#[trigger] r[i]).index == i
        && r[i].symbols.file == sources[i].path by {
        assert(symbols[i] == r[i].symbols);
    }
    lemma_all_parsed(parser, sources, symbols);
}

/// The texts of the files of a list.
pub open spec fn decoded(list: Seq<ReadFileView>) -> Seq<NamedSourceView> {
    list.map_values(
        |f: ReadFileView|
            NamedSourceView { path: f.path, source: source::lossy_text(f.content) },
    )
}

/// How many bytes the files of a list hold.
pub open spec fn list_bytes(list: Seq<ReadFileView>) -> int
    decreases list.len(),
{
    if list.len() == 0 {
        0
    } else {
        list_bytes(list.drop_last()) + list.last().content.len()
    }
}

/// How many files of a list have to be decoded lossily.
pub open spec fn list_lossy(list: Seq<ReadFileView>) -> int
    decreases list.len(),
{
    if list.len() == 0 {
        0
    } else {
        list_lossy(list.drop_last()) + lossy_count(list.last().content)
    }
}

/// The counts of files put behind each other add up.
proof fn lemma_counts_join(
    list: Seq<ReadFileView>,
    a: Seq<ParsedFileView>,
    b: Seq<ParsedFileView>,
)
    ensures
        bytes_of(list, a + b) == bytes_of(list, a) + bytes_of(list, b),
        lossy_of(list, a + b) == lossy_of(list, a) + lossy_of(list, b),
    decreases b.len(),
{
    if b.len() == 0 {
        assert(a + b =~= a);
    } else {
        lemma_counts_join(list, a, b.drop_last());
        assert((a + b).drop_last() =~= a + b.drop_last());
    }
}

/// Putting a file in its place adds its counts.
proof fn lemma_counts_placed(
    list: Seq<ReadFileView>,
    s: Seq<ParsedFileView>,
    f: ParsedFileView,
)
    ensures
        bytes_of(list, placed(s, f)) == bytes_of(list, s) + list[f.index as int].content.len(),
        lossy_of(list, placed(s, f)) == lossy_of(list, s) + lossy_count(
            list[f.index as int].content,
        ),
    decreases s.len(),
{
    if s.len() == 0 || s.last().index <= f.index {
        assert(s.push(f).drop_last() =~= s);
    } else {
        let p = placed(s.drop_last(), f);
        lemma_counts_placed(list, s.drop_last(), f);
        assert(p.push(s.last()).drop_last() =~= p);
    }
}

/// Order does not show in the counts.
proof fn lemma_counts_ordered(list: Seq<ReadFileView>, s: Seq<ParsedFileView>)
    ensures
        bytes_of(list, ordered(s)) == bytes_of(list, s),
        lossy_of(list, ordered(s)) == lossy_of(list, s),
    decreases s.len(),
{
    if s.len() > 0 {
        lemma_counts_ordered(list, s.drop_last());
        lemma_counts_placed(list, ordered(s.drop_last()), s.last());
    }
}

/// The counts of files that stand at their positions are those of the front of the list.
proof fn lemma_counts_in_turn(list: Seq<ReadFileView>, s: Seq<ParsedFileView>)
    requires
        s.len() <= list.len(),
        forall|i: int| 0 <= i < s.len() ==> (#[trigger] s[i]).index == i,
    ensures
        bytes_of(list, s) == list_bytes(list.take(s.len() as int)),
        lossy_of(list, s) == list_lossy(list.take(s.len() as int)),
    decreases s.len(),
{
    if s.len() > 0 {
        let n = s.len() as int;
        let short = s.drop_last();
        assert forall|i: int| 0 <= i < short.len() implies (#[trigger] short[i]).index == i by {
            assert(short[i] == s[i]);
        }
        lemma_counts_in_turn(list, short);
        assert(list.take(n).drop_last() =~= list.take(n - 1));
        assert(s[n - 1].index == n - 1);
        assert(list.take(n).last() == list[n - 1]);
    }
}

/// What the batches of all workers hold together.
proof fn lemma_joined(parser: CppParser, list: Seq<ReadFileView>, batches: Seq<ParsedFiles>)
    requires
        forall|b: int| 0 <= b < batches.len() ==> is_batch(parser, list, #[trigger] batches[b]),
    ensures
        forall|i: int|
            0 <= i < joined_files(batches).len() ==> (#[trigger] joined_files(batches)[i]).index
                < list.len() && parser.parsed(
                list[joined_files(batches)[i].index as int].path,
                source::lossy_text(list[joined_files(batches)[i].index as int].content),
            ) == Ok::<_, Seq<char>>(joined_files(batches)[i].symbols),
        total_bytes(batches) == bytes_of(list, joined_files(batches)),
        total_lossy(batches) == lossy_of(list, joined_files(batches)),
    decreases batches.len(),
{
    if batches.len() > 0 {
        let short = batches.drop_last();
        assert forall|b: int| 0 <= b < short.len() implies is_batch(
            parser,
            list,
            #[trigger] short[b],
        ) by {
            assert(short[b] == batches[b]);
        }
        lemma_joined(parser, list, short);
        let last = batches[batches.len() - 1];
        assert(is_batch(parser, list, last));
        let a = joined_files(short);
        let b = text::views(last.files@);
        let all = joined_files(batches);
        lemma_counts_join(list, a, b);
        assert forall|i: int| 0 <= i < all.len() implies (#[trigger] all[i]).index < list.len()
            && parser.parsed(
            list[all[i].index as int].path,
            source::lossy_text(list[all[i].index as int].content),
        ) == Ok::<_, Seq<char>>(all[i].symbols) by {
            if i < a.len() {
                assert(all[i] == a[i]);
            } else {
                assert(all[i] == b[i - a.len()]);
            }
        }
    }
}

/// However many workers parse the files of a list, and whichever of them takes which file: where
/// each file was taken once, the merged result holds every file of the list at its position, with
/// what parsing them one after the other gives, and counts the bytes of all of them.
pub proof fn law_workers_parse_the_list(
    parser: CppParser,
    list: Seq<ReadFileView>,
    batches: Seq<ParsedFiles>,
)
    requires
        forall|b: int| 0 <= b < batches.len() ==> is_batch(parser, list, #[trigger] batches[b]),
        are_distinct(joined_files(batches)),
        joined_files(batches).len() == list.len(),
    ensures
        ordered(joined_files(batches)).len() == list.len(),
        forall|i: int|
            0 <= i < list.len() ==> (#[trigger] ordered(joined_files(batches))[i]).index == i
                && ordered(joined_files(batches))[i].symbols.file == list[i].path,
        parsed_sources(parser, decoded(list)) == Ok::<_, Seq<char>>(
            symbols_of(ordered(joined_files(batches))),
        ),
        total_bytes(batches) == list_bytes(list),
        total_lossy(batches) == list_lossy(list),
{
    let files = joined_files(batches);
    let sources = decoded(list);
    lemma_joined(parser, list, batches);
    assert forall|i: int| 0 <= i < files.len() implies (#[trigger] files[i]).index < sources.len()
        && parser.parsed(
        sources[files[i].index as int].path,
        sources[files[i].index as int].source,
    ) == Ok::<_, Seq<char>>(files[i].symbols) by {}
    law_workers_parse_the_sources(parser, sources, files);
    assert forall|i: int| 0 <= i < list.len() implies (#[trigger] ordered(files)[i]).index == i
        && ordered(files)[i].symbols.file == list[i].path by {
        assert(sources[i].path == list[i].path);
    }
    lemma_counts_ordered(list, files);
    lemma_counts_in_turn(list, ordered(files));
    assert(list.take(list.len() as int) =~= list);
}

impl Indexer {
    /// Create a new [IndexerBuilder].
    pub fn builder() -> (r: IndexerBuilder)
        ensures
            r@ == default_settings(),
    {
        IndexerBuilder::new()
    }

    /// Parses the texts of the files of the list and builds the index over them.
    pub fn index_sources(&self, sources: &Vec<NamedSource>) -> (r: Result<Index, String>)
        ensures
            match (r, parsed_sources(parser_for(self@), text::views(sources@))) {
                (Ok(ix), Ok(files)) => ix@ == index::with_references_resolved(
                    index::merged(files),
                ),
                (Err(e), Err(m)) => e@ == m,
                _ => false,
            },
    {
        let parser = self.language.parser(self.reference_mode, self.include_reference_context);
        let ghost all = text::views(sources@);
        let mut parsed: Vec<ParsedFile> = Vec::new();
        let mut i: usize = 0;
        assert(symbols_of(text::views(parsed@)) =~= Seq::empty());
        while i < sources.len()
            invariant
                parser == parser_for(self@),
                all == text::views(sources@),
                i <= sources@.len(),
                parsed_sources(parser, all.take(i as int)) == Ok::<_, Seq<char>>(
                    symbols_of(text::views(parsed@)),
                ),
            decreases sources@.len() - i,
        {
            let s = &sources[i];
            let ghost before = symbols_of(text::views(parsed@));
            proof {
                assert(all.take(i + 1).drop_last() =~= all.take(i as int));
                assert(all.take(i + 1).last() == s@);
            }
            match parse_one(&parser, i, s.path.as_str(), s.source.as_str()) {
                Ok(f) => {
                    proof {
                        text::lemma_views_push(parsed@, f);
                    }
                    parsed.push(f);
                    assert(symbols_of(text::views(parsed@)) =~= before.push(f.symbols@));
                },
                Err(e) => {
                    proof {
                        lemma_first_failure(parser, all, i + 1);
                    }
                    return Err(e);
                },
            }
            i = i + 1;
        }
        assert(all.take(i as int) =~= all);
        Ok(build_index(parsed))
    }
}

} // verus!
