//! What holds of paths, of the files that are read, and of the roots inferred from them.
use crate::config;
use crate::indexer;
use crate::language::Language;
use crate::paths::{PathPartView, lemma_name_start, lemma_trim_tail};
use crate::paths;
use crate::text;
use vstd::prelude::*;

verus! {

/// Whether a text names an entry of a directory.
pub open spec fn is_entry(name: Seq<char>) -> bool {
    &&& name.len() > 0
    &&& !name.contains('/')
    &&& name != seq!['.']
    &&& name != seq!['.', '.']
}

/// Whether a path is a plain one: it ends neither in a separator nor in a part that counts for
/// nothing. The root does.
pub open spec fn is_plain(dir: Seq<char>) -> bool {
    ||| dir.len() == 0
    ||| dir == seq!['/']
    ||| dir.last() != '/' && !(dir.len() > 1 && dir.last() == '.' && dir[dir.len() - 2] == '/')
}

/// The last separator tells where the name starts.
proof fn lemma_starts_at(p: Seq<char>, k: int)
    requires
        0 <= k <= p.len(),
        k > 0 ==> p[k - 1] == '/',
        forall|i: int| k <= i < p.len() ==> p[i] != '/',
    ensures
        paths::name_start(p) == k,
{
    lemma_name_start(p);
    let s = paths::name_start(p);
    if s < k {
        assert(p[k - 1] != '/');
    }
    if s > k {
        assert(p[s - 1] != '/');
    }
}

/// A plain path has nothing to trim.
proof fn lemma_plain(dir: Seq<char>)
    requires
        is_plain(dir),
    ensures
        paths::trim_tail(dir) == dir,
{
}

/// The parts of a path do not depend on what stands behind its last name.
proof fn lemma_parts_trimmed(p: Seq<char>)
    ensures
        paths::parts(paths::trim_tail(p)) == paths::parts(p),
{
    lemma_trim_tail(p);
}

/// The path of an entry, cut at its name.
proof fn lemma_entry(dir: Seq<char>, name: Seq<char>)
    requires
        is_entry(name),
        is_plain(dir),
    ensures
        ({
            let p = paths::below(dir, name);
            let k = p.len() - name.len();
            &&& paths::trim_tail(p) == p
            &&& paths::name_start(p) == k
            &&& p.skip(k) == name
            &&& paths::trim_tail(p.take(k)) == dir
            &&& p.len() > 0
            &&& p != seq!['/']
        }),
{
    reveal_strlit("/");
    let p = paths::below(dir, name);
    let k = p.len() - name.len();
    assert(p.skip(k) =~= name);
    assert(p.last() == name.last());
    assert(name.contains(name.last()));
    if p.last() == '.' {
        if name.len() == 1 {
            assert(name =~= seq!['.']);
        } else {
            assert(p[p.len() - 2] == name[name.len() - 2]);
            assert(name.contains(name[name.len() - 2]));
        }
    }
    assert forall|i: int| k <= i < p.len() implies p[i] != '/' by {
        assert(p[i] == name[i - k]);
        assert(name.contains(name[i - k]));
    }
    lemma_starts_at(p, k);
    if dir.len() == 0 {
        assert(p.take(k) =~= dir);
    } else if dir.last() == '/' {
        assert(p.take(k) =~= dir);
        lemma_plain(dir);
    } else {
        assert(p.take(k) =~= dir.push('/'));
        assert(dir.push('/').drop_last() =~= dir);
        lemma_plain(dir);
    }
    if p == seq!['/'] {
        assert(p.last() == '/');
    }
}

/// An entry of a directory has the directory above it and keeps its name; its parts are those of
/// the directory and the name.
pub proof fn law_entries_lie_in_their_directory(dir: Seq<char>, name: Seq<char>)
    requires
        is_entry(name),
        is_plain(dir),
    ensures
        paths::file_name(paths::below(dir, name)) == Some(name),
        paths::parent(paths::below(dir, name)) == Some(dir),
        paths::parts(paths::below(dir, name)) == paths::parts(dir).push(PathPartView::Name(name)),
        paths::lies_below(paths::below(dir, name), dir),
{
    reveal_strlit(".");
    reveal_strlit("..");
    assert("."@ =~= seq!['.']);
    assert(".."@ =~= seq!['.', '.']);
    let p = paths::below(dir, name);
    let k = p.len() - name.len();
    lemma_entry(dir, name);
    lemma_parts_trimmed(p.take(k));
    let all = paths::parts(dir);
    assert(all.push(PathPartView::Name(name)).take(all.len() as int) =~= all);
}

/// One path lies at or below another where its parts begin with those of the other.
pub proof fn law_below_goes_by_parts(p: Seq<char>, base: Seq<char>)
    ensures
        paths::lies_below(p, base) <==> paths::parts(base).len() <= paths::parts(p).len()
            && forall|i: int|
            0 <= i < paths::parts(base).len() ==> paths::parts(p)[i] == #[trigger] paths::parts(
                base,
            )[i],
{
    let a = paths::parts(p);
    let b = paths::parts(base);
    if b.len() <= a.len() {
        if a.take(b.len() as int) == b {
            assert forall|i: int| 0 <= i < b.len() implies a[i] == #[trigger] b[i] by {
                assert(a.take(b.len() as int)[i] == b[i]);
            }
        } else if forall|i: int| 0 <= i < b.len() ==> a[i] == #[trigger] b[i] {
            assert(a.take(b.len() as int) =~= b);
        }
    }
}

/// The last dot tells where the extension starts.
proof fn lemma_dot_at(s: Seq<char>, k: int)
    requires
        0 <= k <= s.len(),
        k > 0 ==> s[k - 1] == '.',
        forall|i: int| k <= i < s.len() ==> s[i] != '.',
    ensures
        paths::dot_end(s) == k,
    decreases s.len(),
{
    if s.len() > 0 && s.last() != '.' {
        if k == s.len() {
            assert(s[k - 1] == s.last());
        }
        assert forall|i: int| k <= i < s.drop_last().len() implies s.drop_last()[i] != '.' by {
            assert(s.drop_last()[i] == s[i]);
        }
        lemma_dot_at(s.drop_last(), k);
    } else if s.len() > 0 && k < s.len() {
        assert(s[s.len() - 1] != '.');
    }
}

/// What stands behind the last dot of a name is its extension, and what stands before it its stem.
pub proof fn law_extension_stands_behind_the_last_dot(
    dir: Seq<char>,
    stem: Seq<char>,
    extension: Seq<char>,
)
    requires
        is_plain(dir),
        stem.len() > 0,
        is_entry(stem + seq!['.'] + extension),
        !extension.contains('.'),
    ensures
        paths::extension(paths::below(dir, stem + seq!['.'] + extension)) == Some(extension),
        paths::file_stem(paths::below(dir, stem + seq!['.'] + extension)) == Some(stem),
{
    let name = stem + seq!['.'] + extension;
    let k = stem.len() + 1;
    law_entries_lie_in_their_directory(dir, name);
    assert forall|i: int| k <= i < name.len() implies name[i] != '.' by {
        assert(name[i] == extension[i - k]);
        assert(extension.contains(extension[i - k]));
    }
    lemma_dot_at(name, k as int);
    assert(name.skip(k as int) =~= extension);
    assert(name.take(k - 1) =~= stem);
}

/// A name without a dot behind its first character has no extension, and is its own stem.
pub proof fn law_names_without_a_dot_have_no_extension(dir: Seq<char>, name: Seq<char>)
    requires
        is_plain(dir),
        is_entry(name),
        forall|i: int| 1 <= i < name.len() ==> name[i] != '.',
    ensures
        paths::extension(paths::below(dir, name)) is None,
        paths::file_stem(paths::below(dir, name)) == Some(name),
{
    law_entries_lie_in_their_directory(dir, name);
    if name[0] == '.' {
        lemma_dot_at(name, 1);
    } else {
        lemma_dot_at(name, 0);
    }
}

/// The extensions of the sources of a language.
pub open spec fn source_extensions(language: Language) -> Seq<Seq<char>> {
    match language {
        Language::C => seq![seq!['c'], seq!['h']],
        Language::Cpp => seq![
            seq!['c'],
            seq!['h'],
            seq!['c', 'c'],
            seq!['h', 'h'],
            seq!['c', 'p', 'p'],
            seq!['h', 'p', 'p'],
            seq!['c', 'x', 'x'],
            seq!['h', 'x', 'x'],
            seq!['c', '+', '+'],
            seq!['h', '+', '+'],
        ],
    }
}

/// Files are sources of a language by the extension of their name alone, in whatever directory
/// they are.
pub proof fn law_sources_are_told_by_their_extension(
    dir: Seq<char>,
    stem: Seq<char>,
    extension: Seq<char>,
    language: Language,
)
    requires
        is_plain(dir),
        stem.len() > 0,
        is_entry(stem + seq!['.'] + extension),
        !extension.contains('.'),
    ensures
        indexer::is_source(paths::below(dir, stem + seq!['.'] + extension), language)
            <==> source_extensions(language).contains(text::ascii_lowered(extension)),
{
    law_extension_stands_behind_the_last_dot(dir, stem, extension);
    reveal_strlit("c");
    reveal_strlit("h");
    reveal_strlit("cc");
    reveal_strlit("hh");
    reveal_strlit("cpp");
    reveal_strlit("hpp");
    reveal_strlit("cxx");
    reveal_strlit("hxx");
    reveal_strlit("c++");
    reveal_strlit("h++");
    let low = text::ascii_lowered(extension);
    let all = source_extensions(language);
    assert("c"@ =~= all[0]);
    assert("h"@ =~= all[1]);
    if language == Language::Cpp {
        assert("cc"@ =~= all[2]);
        assert("hh"@ =~= all[3]);
        assert("cpp"@ =~= all[4]);
        assert("hpp"@ =~= all[5]);
        assert("cxx"@ =~= all[6]);
        assert("hxx"@ =~= all[7]);
        assert("c++"@ =~= all[8]);
        assert("h++"@ =~= all[9]);
    }
    if all.contains(low) {
        let i = choose|i: int| 0 <= i < all.len() && all[i] == low;
        assert(all[i] == low);
    }
}

/// A name without an extension is no source.
pub proof fn law_names_without_a_dot_are_no_sources(
    dir: Seq<char>,
    name: Seq<char>,
    language: Language,
)
    requires
        is_plain(dir),
        is_entry(name),
        forall|i: int| 1 <= i < name.len() ==> name[i] != '.',
    ensures
        !indexer::is_source(paths::below(dir, name), language),
{
    law_names_without_a_dot_have_no_extension(dir, name);
}

/// Hidden entries are passed over, files and directories alike; of the others no file is, and a
/// directory only where it is known to hold built or foreign code.
pub proof fn law_entries_passed_over(name: Seq<char>, is_dir: bool)
    requires
        is_entry(name),
    ensures
        name[0] == '.' ==> indexer::is_skipped(name, is_dir),
        name[0] != '.' && !is_dir ==> !indexer::is_skipped(name, is_dir),
        name[0] != '.' && is_dir ==> (indexer::is_skipped(name, is_dir) <==> seq![
            "build"@,
            "cmake-build-debug"@,
            "cmake-build-release"@,
            "bazel-bin"@,
            "bazel-out"@,
            "bazel-testlogs"@,
            "node_modules"@,
            "third_party"@,
            "third-party"@,
        ].contains(name)),
{
    reveal_strlit(".");
    reveal_strlit("..");
    assert("."@ =~= seq!['.']);
    assert(".."@ =~= seq!['.', '.']);
    assert(name.take(1) =~= seq![name[0]]);
    if text::begins_with(name, "."@) {
        assert(name.take(1)[0] == '.');
    }
    let all = seq![
        "build"@,
        "cmake-build-debug"@,
        "cmake-build-release"@,
        "bazel-bin"@,
        "bazel-out"@,
        "bazel-testlogs"@,
        "node_modules"@,
        "third_party"@,
        "third-party"@,
    ];
    assert(all[0] == "build"@ && all[1] == "cmake-build-debug"@ && all[2]
        == "cmake-build-release"@ && all[3] == "bazel-bin"@ && all[4] == "bazel-out"@ && all[5]
        == "bazel-testlogs"@ && all[6] == "node_modules"@ && all[7] == "third_party"@ && all[8]
        == "third-party"@);
    if all.contains(name) {
        let i = choose|i: int| 0 <= i < all.len() && all[i] == name;
        assert(all[i] == name);
    }
}

/// There are as many workers as asked for, or else as the machine offers, so far as there are
/// files for them; and never none.
pub proof fn law_workers_have_files(requested: Option<usize>, available: usize, files: usize)
    ensures
        workers_fit(requested, available, files, indexer::workers(requested, available, files)),
{
}

/// Whether a number of workers fits what is asked for, what the machine offers, and the files.
pub open spec fn workers_fit(
    requested: Option<usize>,
    available: usize,
    files: usize,
    n: usize,
) -> bool {
    &&& n >= 1
    &&& n > 1 ==> n <= files
    &&& requested matches Some(r) ==> (1 <= r <= files ==> n == r) && (r > files >= 1 ==> n
        == files)
    &&& requested is None ==> (1 <= available <= files ==> n == available) && (available > files
        >= 1 ==> n == files)
}

/// The path above a path has all its parts but the last.
proof fn lemma_parent_parts(p: Seq<char>)
    ensures
        paths::parent(p) matches Some(q) ==> paths::parts(p).len() > 0 && paths::parts(q)
            == paths::parts(p).drop_last(),
        paths::parent(p) is None ==> paths::parts(p).len() <= 1,
        paths::parts(p).len() > 0 ==> p.len() > 0,
{
    let q = paths::trim_tail(p);
    let start = paths::name_start(q);
    lemma_trim_tail(p);
    lemma_name_start(q);
    if q.len() > 0 && q != seq!['/'] {
        reveal_strlit(".");
        lemma_parts_trimmed(q.take(start));
        let name = q.skip(start);
        let up = paths::parts(q.take(start));
        if start == 0 && name == "."@ {
            assert(q.take(0) =~= Seq::empty());
            assert(paths::parts(p).drop_last() =~= Seq::empty());
        } else {
            assert(up.push(PathPartView::Name(name)).drop_last() =~= up);
        }
    }
}

/// The way up from a directory to one above another ends no higher than where both lie below.
proof fn lemma_climb_stays(common: Seq<char>, dir: Seq<char>, d: Seq<char>)
    requires
        paths::parts(d).len() > 0,
        paths::lies_below(common, d),
        paths::lies_below(dir, d),
    ensures
        config::climb(common, dir) matches Some(c) && paths::lies_below(c, d),
    decreases common.len(),
{
    lemma_parent_parts(common);
    let a = paths::parts(common);
    let b = paths::parts(d);
    let x = paths::parts(dir);
    if !paths::lies_below(dir, common) {
        assert(a != b);
        if a.len() == b.len() {
            assert(a.take(b.len() as int) =~= a);
        }
        assert(a.len() > b.len());
        let p = paths::parent(common)->0;
        lemma_parent_parts(p);
        assert(a.drop_last().take(b.len() as int) =~= a.take(b.len() as int));
        paths::lemma_parent_shorter(common);
        assert(paths::parts(p).len() > 0);
        lemma_climb_stays(p, dir, d);
    }
}

/// A path lies below itself.
proof fn lemma_below_itself(p: Seq<char>)
    ensures
        paths::lies_below(p, p),
{
    assert(paths::parts(p).take(paths::parts(p).len() as int) =~= paths::parts(p));
}

/// The directory that files have in common is the deepest one: where all files lie below a
/// directory there is one in common, all files lie below it, and it lies at or below that directory.
pub proof fn law_common_root_is_the_deepest(files: Seq<Seq<char>>, d: Seq<char>)
    requires
        files.len() > 0,
        paths::parts(d).len() > 0,
        forall|i: int|
            0 <= i < files.len() ==> paths::lies_below(config::directory(#[trigger] files[i]), d),
    ensures
        config::common_root(files) matches Some(c) && paths::lies_below(c, d) && forall|i: int|
            0 <= i < files.len() ==> paths::lies_below(config::directory(#[trigger] files[i]), c),
    decreases files.len(),
{
    lemma_common_directory(files, d);
    assert forall|i: int| 0 <= i < files.len() implies paths::lies_below(
        config::directory(#[trigger] files[i]),
        config::common_root(files)->0,
    ) by {
        config::law_files_lie_below_common_root(files, i);
    }
}

/// Files that lie below a directory have one in common at or below it.
proof fn lemma_common_directory(files: Seq<Seq<char>>, d: Seq<char>)
    requires
        files.len() > 0,
        paths::parts(d).len() > 0,
        forall|i: int|
            0 <= i < files.len() ==> paths::lies_below(config::directory(#[trigger] files[i]), d),
    ensures
        config::common_directory(files) matches Some(c) && paths::lies_below(c, d),
    decreases files.len(),
{
    if files.len() == 1 {
        assert(paths::lies_below(config::directory(files[0]), d));
    } else {
        let short = files.drop_last();
        assert forall|i: int| 0 <= i < short.len() implies paths::lies_below(
            config::directory(#[trigger] short[i]),
            d,
        ) by {
            assert(short[i] == files[i]);
        }
        lemma_common_directory(short, d);
        assert(paths::lies_below(config::directory(files[files.len() - 1]), d));
        lemma_climb_stays(config::common_directory(short)->0, config::directory(files.last()), d);
    }
}

/// Files without a directory in common but the working one are taken to be indexed from there, and
/// without files there is no root.
pub proof fn law_root_of_files_apart(files: Seq<Seq<char>>)
    ensures
        files.len() == 0 <==> config::common_root(files) is None,
        files.len() > 0 && config::common_directory(files) is None ==> config::common_root(files)
            == Some(seq!['.']),
        files.len() == 1 && is_plain(files[0]) && is_entry(files[0]) ==> config::common_root(files)
            == Some(seq!['.']),
{
    reveal_strlit(".");
    assert("."@ =~= seq!['.']);
    if files.len() == 1 && is_entry(files[0]) {
        law_entries_lie_in_their_directory(Seq::empty(), files[0]);
        assert(paths::below(Seq::empty(), files[0]) =~= files[0]);
    }
}

/// How often a text is counted is how often it occurs.
pub proof fn law_times_counts_occurrences(all: Seq<Seq<char>>, x: Seq<char>)
    ensures
        config::times(all, x) == all.to_multiset().count(x),
    decreases all.len(),
{
    broadcast use vstd::seq_lib::group_to_multiset_ensures;

    if all.len() == 0 {
        assert(all =~= Seq::empty());
    } else {
        law_times_counts_occurrences(all.drop_last(), x);
        assert(all =~= all.drop_last().push(all.last()));
    }
}

} // verus!
