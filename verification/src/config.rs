//! The roots and options that a database was built with.
use crate::paths::{is_below, is_filesystem_root, parent_of};
use crate::paths;
use crate::rows::{FileRow, FileRowView};
use crate::text::{is_before, same};
use crate::text;
use vstd::prelude::*;

verus! {

/// The roots and options of an index.
#[derive(Debug)]
pub struct IndexConfig {
    pub roots: Vec<String>,
    pub language: String,
    pub follow_symlinks: bool,
    pub reference_mode: String,
    pub include_reference_context: bool,
}

/// The roots and options of an index.
pub struct IndexConfigView {
    pub roots: Seq<Seq<char>>,
    pub language: Seq<char>,
    pub follow_symlinks: bool,
    pub reference_mode: Seq<char>,
    pub include_reference_context: bool,
}

impl View for IndexConfig {
    type V = IndexConfigView;

    open spec fn view(&self) -> IndexConfigView {
        IndexConfigView {
            roots: text::views(self.roots@),
            language: self.language@,
            follow_symlinks: self.follow_symlinks,
            reference_mode: self.reference_mode@,
            include_reference_context: self.include_reference_context,
        }
    }
}

/// A row of the table of indexed roots.
#[derive(Debug)]
pub struct RootRow {
    pub path: String,
    pub language: String,
    pub follow_symlinks: i64,
    pub reference_mode: String,
    pub include_reference_context: i64,
}

/// A row of the table of indexed roots.
pub struct RootRowView {
    pub path: Seq<char>,
    pub language: Seq<char>,
    pub follow_symlinks: i64,
    pub reference_mode: Seq<char>,
    pub include_reference_context: i64,
}

impl View for RootRow {
    type V = RootRowView;

    open spec fn view(&self) -> RootRowView {
        RootRowView {
            path: self.path@,
            language: self.language@,
            follow_symlinks: self.follow_symlinks,
            reference_mode: self.reference_mode@,
            include_reference_context: self.include_reference_context,
        }
    }
}

/// The rows that store a configuration: one for each root, each with all options.
pub open spec fn config_rows(c: IndexConfigView) -> Seq<RootRowView> {
    c.roots.map_values(
        |p: Seq<char>|
            RootRowView {
                path: p,
                language: c.language,
                follow_symlinks: crate::save::stored_bool(c.follow_symlinks),
                reference_mode: c.reference_mode,
                include_reference_context: crate::save::stored_bool(c.include_reference_context),
            },
    )
}

/// The configuration that rows store: the first row names language and reference mode, the last
/// one gives the switches. Without rows there is none.
pub open spec fn stored_config(rows: Seq<RootRowView>) -> Option<IndexConfigView> {
    if rows.len() == 0 {
        None
    } else {
        Some(
            IndexConfigView {
                roots: rows.map_values(|r: RootRowView| r.path),
                language: rows[0].language,
                follow_symlinks: rows.last().follow_symlinks != 0,
                reference_mode: rows[0].reference_mode,
                include_reference_context: rows.last().include_reference_context != 0,
            },
        )
    }
}

/// The rows that store a configuration.
pub fn save_index_config(config: &IndexConfig) -> (r: Vec<RootRow>)
    ensures
        text::views(r@) == config_rows(config@),
{
    let ghost wanted = config_rows(config@);
    let mut r: Vec<RootRow> = Vec::new();
    let mut i: usize = 0;
    while i < config.roots.len()
        invariant
            wanted == config_rows(config@),
            i <= config.roots@.len(),
            r@.len() == i,
            forall|k: int| 0 <= k < i ==> (#[trigger] r@[k])@ == wanted[k],
        decreases config.roots@.len() - i,
    {
        r.push(
            RootRow {
                path: config.roots[i].clone(),
                language: config.language.clone(),
                follow_symlinks: crate::save::store_bool(config.follow_symlinks),
                reference_mode: config.reference_mode.clone(),
                include_reference_context: crate::save::store_bool(
                    config.include_reference_context,
                ),
            },
        );
        i = i + 1;
    }
    assert(text::views(r@) =~= wanted);
    r
}

/// The configuration that rows store.
pub fn load_index_config(rows: &Vec<RootRow>) -> (r: Option<IndexConfig>)
    ensures
        text::view_opt(r) == stored_config(text::views(rows@)),
{
    let ghost all = text::views(rows@);
    let n = rows.len();
    if n == 0 {
        return None;
    }
    let mut roots: Vec<String> = Vec::new();
    let mut i: usize = 0;
    while i < n
        invariant
            all == text::views(rows@),
            n == rows@.len(),
            i <= n,
            roots@.len() == i,
            forall|k: int| 0 <= k < i ==> (#[trigger] roots@[k])@ == all[k].path,
        decreases n - i,
    {
        roots.push(rows[i].path.clone());
        i = i + 1;
    }
    let r = IndexConfig {
        roots,
        language: rows[0].language.clone(),
        follow_symlinks: rows[n - 1].follow_symlinks != 0,
        reference_mode: rows[0].reference_mode.clone(),
        include_reference_context: rows[n - 1].include_reference_context != 0,
    };
    proof {
        assert(r@.roots =~= all.map_values(|x: RootRowView| x.path));
        assert(all.last() == rows@[n - 1]@);
    }
    Some(r)
}

/// A configuration with at least one root is read back as it was stored.
pub proof fn law_config_round_trip(c: IndexConfigView)
    requires
        c.roots.len() > 0,
    ensures
        stored_config(config_rows(c)) == Some(c),
{
    assert(config_rows(c).map_values(|r: RootRowView| r.path) =~= c.roots);
}

/// The directory of a file: `.` where the path names none.
pub open spec fn directory(path: Seq<char>) -> Seq<char> {
    match paths::parent(path) {
        Some(p) if p.len() > 0 => p,
        _ => "."@,
    }
}

/// The directory of a file.
pub fn file_parent(path: &str) -> (r: String)
    ensures
        r@ == directory(path@),
{
    match parent_of(path) {
        Some(p) => if p.as_str().is_empty() {
            ".".to_owned()
        } else {
            p
        },
        None => ".".to_owned(),
    }
}

/// The first directory from `common` upwards at or below which a directory lies; nothing where
/// the way up ends before.
pub open spec fn climb(common: Seq<char>, dir: Seq<char>) -> Option<Seq<char>>
    decreases common.len(),
{
    if paths::lies_below(dir, common) {
        Some(common)
    } else {
        match paths::parent(common) {
            Some(p) if p.len() > 0 => {
                proof {
                    paths::lemma_parent_shorter(common);
                }
                climb(p, dir)
            },
            _ => None,
        }
    }
}

/// The directory that the directories of the first files have in common; nothing where they
/// have none.
pub open spec fn common_directory(files: Seq<Seq<char>>) -> Option<Seq<char>>
    decreases files.len(),
{
    if files.len() == 0 {
        None
    } else if files.len() == 1 {
        Some(directory(files[0]))
    } else {
        match common_directory(files.drop_last()) {
            Some(c) => climb(c, directory(files.last())),
            None => None,
        }
    }
}

/// The root that files are likely to have been indexed from: the directory that they have in
/// common, and `.` where they have none.
pub open spec fn common_root(files: Seq<Seq<char>>) -> Option<Seq<char>> {
    if files.len() == 0 {
        None
    } else {
        match common_directory(files) {
            Some(c) => Some(c),
            None => Some("."@),
        }
    }
}

/// Climbs from a directory to one at or below which another lies.
fn climb_to(common: String, dir: &str) -> (r: Option<String>)
    ensures
        text::view_opt(r) == climb(common@, dir@),
    decreases common@.len(),
{
    if is_below(dir, common.as_str()) {
        return Some(common);
    }
    match parent_of(common.as_str()) {
        Some(p) => if p.as_str().is_empty() {
            None
        } else {
            proof {
                paths::lemma_parent_shorter(common@);
            }
            climb_to(p, dir)
        },
        None => None,
    }
}

/// Once there is no common directory, further files do not change that.
proof fn lemma_nothing_common(files: Seq<Seq<char>>, i: int)
    requires
        0 < i <= files.len(),
        common_directory(files.take(i)) is None,
    ensures
        common_directory(files) is None,
    decreases files.len() - i,
{
    if i == files.len() {
        assert(files.take(i) =~= files);
    } else {
        assert(files.take(i + 1).drop_last() =~= files.take(i));
        lemma_nothing_common(files, i + 1);
    }
}

/// The root that files are likely to have been indexed from.
pub fn infer_common_index_root(files: &Vec<String>) -> (r: Option<String>)
    ensures
        text::view_opt(r) == common_root(text::views(files@)),
{
    let ghost all = text::views(files@);
    if files.len() == 0 {
        return None;
    }
    let mut common = file_parent(files[0].as_str());
    let mut i: usize = 1;
    proof {
        assert(all.take(1).len() == 1 && all.take(1)[0] == files@[0]@);
    }
    while i < files.len()
        invariant
            all == text::views(files@),
            1 <= i <= files@.len(),
            common_directory(all.take(i as int)) == Some(common@),
        decreases files@.len() - i,
    {
        let dir = file_parent(files[i].as_str());
        proof {
            assert(all.take(i + 1).drop_last() =~= all.take(i as int));
            assert(all.take(i + 1).last() == files@[i as int]@);
        }
        match climb_to(common, dir.as_str()) {
            Some(c) => {
                common = c;
            },
            None => {
                proof {
                    lemma_nothing_common(all, i + 1);
                }
                return Some(".".to_owned());
            },
        }
        i = i + 1;
    }
    assert(all.take(i as int) =~= all);
    Some(common)
}

/// How often a text occurs.
pub open spec fn times(all: Seq<Seq<char>>, x: Seq<char>) -> nat
    decreases all.len(),
{
    if all.len() == 0 {
        0
    } else {
        times(all.drop_last(), x) + if all.last() == x {
            1nat
        } else {
            0nat
        }
    }
}

/// Whether a text occurs more often than another, or as often and comes after it.
pub open spec fn leads(all: Seq<Seq<char>>, a: Seq<char>, b: Seq<char>) -> bool {
    times(all, a) > times(all, b) || (times(all, a) == times(all, b) && text::before(b, a))
}

/// Whether a text is the most frequent one: the last in order among those that occur most often.
pub open spec fn is_most_frequent(all: Seq<Seq<char>>, x: Seq<char>) -> bool {
    all.contains(x) && forall|k: int| 0 <= k < all.len() ==> !#[trigger] leads(all, all[k], x)
}

/// Only one text is the most frequent one.
pub proof fn law_most_frequent_is_unique(all: Seq<Seq<char>>, a: Seq<char>, b: Seq<char>)
    requires
        is_most_frequent(all, a),
        is_most_frequent(all, b),
    ensures
        a == b,
{
    let i = choose|i: int| 0 <= i < all.len() && all[i] == a;
    let j = choose|j: int| 0 <= j < all.len() && all[j] == b;
    assert(!leads(all, all[i], b) && !leads(all, all[j], a));
    text::lemma_before(a, b, a);
}

/// The languages of files.
pub open spec fn languages(files: Seq<FileRowView>) -> Seq<Seq<char>> {
    files.map_values(|f: FileRowView| f.language)
}

/// The paths of files.
pub open spec fn file_paths(files: Seq<FileRowView>) -> Seq<Seq<char>> {
    files.map_values(|f: FileRowView| f.path)
}

/// Counts how often a language occurs.
fn count_language(files: &Vec<FileRow>, language: &str) -> (r: usize)
    ensures
        r == times(languages(text::views(files@)), language@),
{
    let ghost all = languages(text::views(files@));
    let mut n: usize = 0;
    let mut i: usize = 0;
    while i < files.len()
        invariant
            all == languages(text::views(files@)),
            i <= files@.len(),
            n <= i,
            n == times(all.take(i as int), language@),
        decreases files@.len() - i,
    {
        proof {
            assert(all.take(i + 1).drop_last() =~= all.take(i as int));
            assert(all.take(i + 1).last() == files@[i as int].language@);
        }
        if same(files[i].language.as_str(), language) {
            n = n + 1;
        }
        i = i + 1;
    }
    assert(all.take(i as int) =~= all);
    n
}

/// Whether a text is among texts.
fn holds(v: &Vec<String>, s: &str) -> (r: bool)
    ensures
        r == text::views(v@).contains(s@),
{
    let mut i: usize = 0;
    while i < v.len()
        invariant
            i <= v@.len(),
            forall|k: int| 0 <= k < i ==> (#[trigger] v@[k])@ != s@,
        decreases v@.len() - i,
    {
        if same(v[i].as_str(), s) {
            assert(text::views(v@)[i as int] == s@);
            return true;
        }
        i = i + 1;
    }
    assert forall|k: int| 0 <= k < v@.len() implies #[trigger] text::views(v@)[k] != s@ by {
        assert(v@[k]@ != s@);
    }
    false
}

/// The different languages of files.
fn distinct_languages(files: &Vec<FileRow>) -> (r: Vec<String>)
    ensures
        forall|x: Seq<char>|
            #![auto]
            text::views(r@).contains(x) == languages(text::views(files@)).contains(x),
{
    let ghost all = languages(text::views(files@));
    let mut found: Vec<String> = Vec::new();
    let mut i: usize = 0;
    while i < files.len()
        invariant
            all == languages(text::views(files@)),
            i <= files@.len(),
            forall|x: Seq<char>|
                #![auto]
                text::views(found@).contains(x) == all.take(i as int).contains(x),
        decreases files@.len() - i,
    {
        let ghost old_found = text::views(found@);
        let ghost language = files@[i as int].language@;
        if !holds(&found, files[i].language.as_str()) {
            let copy = files[i].language.clone();
            proof {
                text::lemma_views_push(found@, copy);
            }
            found.push(copy);
        }
        proof {
            assert(all.take(i + 1) =~= all.take(i as int).push(language));
            text::lemma_push_contains(all.take(i as int), language);
            text::lemma_push_contains(old_found, language);
        }
        i = i + 1;
    }
    assert(all.take(i as int) =~= all);
    found
}

/// The most frequent language of files.
fn most_frequent_language(files: &Vec<FileRow>) -> (r: String)
    requires
        files@.len() > 0,
    ensures
        is_most_frequent(languages(text::views(files@)), r@),
{
    let ghost all = languages(text::views(files@));
    let found = distinct_languages(files);
    let ghost names = text::views(found@);
    proof {
        assert(all[0] == files@[0].language@);
        assert(all.contains(all[0]));
        assert(names.contains(all[0]));
    }
    let mut best = found[0].clone();
    let mut best_count = count_language(files, best.as_str());
    let mut i: usize = 1;
    proof {
        assert(names[0] == best@);
        text::lemma_before(best@, best@, best@);
    }
    while i < found.len()
        invariant
            all == languages(text::views(files@)),
            names == text::views(found@),
            1 <= i <= found@.len(),
            names.contains(best@),
            best_count == times(all, best@),
            forall|k: int| 0 <= k < i ==> !#[trigger] leads(all, names[k], best@),
        decreases found@.len() - i,
    {
        let n = count_language(files, found[i].as_str());
        let ghost next = found@[i as int]@;
        let ghost before = best@;
        assert(names[i as int] == next);
        if n > best_count || (n == best_count && is_before(best.as_str(), found[i].as_str())) {
            best = found[i].clone();
            best_count = n;
            proof {
                assert forall|k: int| 0 <= k <= i implies !#[trigger] leads(
                    all,
                    names[k],
                    best@,
                ) by {
                    if k < i {
                        assert(!leads(all, names[k], before));
                        text::lemma_before(before, next, names[k]);
                    } else {
                        text::lemma_before(next, next, next);
                    }
                }
            }
        }
        i = i + 1;
    }
    proof {
        assert forall|k: int| 0 <= k < all.len() implies !#[trigger] leads(all, all[k], best@) by {
            assert(all.contains(all[k]));
            assert(names.contains(all[k]));
            let j = choose|j: int| 0 <= j < names.len() && names[j] == all[k];
            assert(!leads(all, names[j], best@));
        }
    }
    best
}

/// The root to look for files below: the directory that all have in common, unless there are no
/// files or it is the root of the file system.
pub open spec fn inferred_root(files: Seq<FileRowView>) -> Option<Seq<char>> {
    match common_root(file_paths(files)) {
        Some(root) => if paths::is_root(root) {
            None
        } else {
            Some(root)
        },
        None => None,
    }
}

/// The root to look for files below.
pub fn infer_index_root(files: &Vec<FileRow>) -> (r: Option<String>)
    ensures
        text::view_opt(r) == inferred_root(text::views(files@)),
{
    let mut names: Vec<String> = Vec::new();
    let mut i: usize = 0;
    while i < files.len()
        invariant
            i <= files@.len(),
            names@.len() == i,
            forall|k: int| 0 <= k < i ==> (#[trigger] names@[k])@ == files@[k].path@,
        decreases files@.len() - i,
    {
        names.push(files[i].path.clone());
        i = i + 1;
    }
    assert(text::views(names@) =~= file_paths(text::views(files@)));
    match infer_common_index_root(&names) {
        Some(root) => if is_filesystem_root(root.as_str()) {
            None
        } else {
            Some(root)
        },
        None => None,
    }
}

/// The configuration to assume for a database with files and without stored roots, where
/// `root_exists` tells whether there is anything at the inferred root: one root, the most
/// frequent language, and no references.
pub fn infer_index_config_from_files(files: &Vec<FileRow>, root_exists: bool) -> (r: Option<
    IndexConfig,
>)
    ensures
        match r {
            Some(c) => {
                let root = inferred_root(text::views(files@));
                &&& root_exists
                &&& root is Some
                &&& c@.roots == seq![root->0]
                &&& is_most_frequent(languages(text::views(files@)), c@.language)
                &&& !c@.follow_symlinks
                &&& c@.reference_mode == "none"@
                &&& !c@.include_reference_context
            },
            None => !root_exists || inferred_root(text::views(files@)) is None,
        },
{
    if !root_exists {
        return None;
    }
    match infer_index_root(files) {
        Some(root) => {
            let mut roots: Vec<String> = Vec::new();
            roots.push(root);
            assert(text::views(roots@) =~= seq![root@]);
            Some(
                IndexConfig {
                    roots,
                    language: most_frequent_language(files),
                    follow_symlinks: false,
                    reference_mode: "none".to_owned(),
                    include_reference_context: false,
                },
            )
        },
        None => None,
    }
}

/// A directory climbed to has the other at or below it.
proof fn lemma_climb(common: Seq<char>, dir: Seq<char>)
    ensures
        climb(common, dir) matches Some(c) ==> paths::lies_below(dir, c) && paths::lies_below(
            common,
            c,
        ),
    decreases common.len(),
{
    if paths::lies_below(dir, common) {
        assert(paths::parts(common).take(paths::parts(common).len() as int) =~= paths::parts(
            common,
        ));
    } else {
        match paths::parent(common) {
            Some(p) if p.len() > 0 => {
                paths::lemma_parent_shorter(common);
                lemma_climb(p, dir);
                if let Some(c) = climb(p, dir) {
                    lemma_below_parent(common, p);
                    lemma_below_transitive(common, p, c);
                }
            },
            _ => {},
        }
    }
}

/// A path lies below the path above it.
proof fn lemma_below_parent(path: Seq<char>, p: Seq<char>)
    requires
        paths::parent(path) == Some(p),
        p.len() > 0,
    ensures
        paths::lies_below(path, p),
{
    let q = paths::trim_tail(path);
    let start = paths::name_start(q);
    paths::lemma_trim_tail(path);
    paths::lemma_name_start(q);
    paths::lemma_trim_tail(q.take(start));
    paths::lemma_trim_tail(p);
    assert(paths::parts(p) == paths::parts(q.take(start)));
    assert(start > 0);
    assert(paths::parts(path) == paths::parts(q.take(start)).push(
        paths::PathPartView::Name(q.skip(start)),
    ));
    assert(paths::parts(path).take(paths::parts(p).len() as int) =~= paths::parts(p));
}

proof fn lemma_below_transitive(a: Seq<char>, b: Seq<char>, c: Seq<char>)
    requires
        paths::lies_below(a, b),
        paths::lies_below(b, c),
    ensures
        paths::lies_below(a, c),
{
    let n = paths::parts(c).len() as int;
    assert(paths::parts(a).take(n) =~= paths::parts(a).take(
        paths::parts(b).len() as int,
    ).take(n));
}

/// Every file lies below the directory that all have in common.
pub proof fn law_files_lie_below_common_root(files: Seq<Seq<char>>, i: int)
    requires
        0 <= i < files.len(),
    ensures
        common_directory(files) matches Some(c) ==> paths::lies_below(directory(files[i]), c),
    decreases files.len(),
{
    if files.len() == 1 {
        let d = directory(files[0]);
        assert(paths::parts(d).take(paths::parts(d).len() as int) =~= paths::parts(d));
    } else {
        let short = files.drop_last();
        if let Some(b) = common_directory(short) {
            lemma_climb(b, directory(files.last()));
            if let Some(c) = climb(b, directory(files.last())) {
                if i < files.len() - 1 {
                    assert(short[i] == files[i]);
                    law_files_lie_below_common_root(short, i);
                    lemma_below_transitive(directory(files[i]), b, c);
                }
            }
        }
    }
}

} // verus!
