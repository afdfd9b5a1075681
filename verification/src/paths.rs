//! Paths as texts whose parts are parted by `/`. Repeated separators and `.` parts count for
//! nothing, but for a `.` at the very beginning.
use crate::text::{chars_of, same, string_of};
use crate::text;
use vstd::prelude::*;

verus! {

/// A path without separators and `.` parts at its end. A root stays.
pub open spec fn trim_tail(p: Seq<char>) -> Seq<char>
    decreases p.len(),
{
    if p.len() > 1 && p.last() == '/' {
        trim_tail(p.drop_last())
    } else if p.len() > 1 && p.last() == '.' && p[p.len() - 2] == '/' {
        trim_tail(p.drop_last())
    } else {
        p
    }
}

/// The position behind the last separator.
pub open spec fn name_start(p: Seq<char>) -> int
    decreases p.len(),
{
    if p.len() == 0 {
        0
    } else if p.last() == '/' {
        p.len() as int
    } else {
        name_start(p.drop_last())
    }
}

/// The path above a path: nothing above the root or the empty path.
pub open spec fn parent(p: Seq<char>) -> Option<Seq<char>> {
    let q = trim_tail(p);
    if q.len() == 0 || q == seq!['/'] {
        None
    } else {
        Some(trim_tail(q.take(name_start(q))))
    }
}

/// A trimmed path is a beginning of the path.
pub proof fn lemma_trim_tail(p: Seq<char>)
    ensures
        trim_tail(p).len() <= p.len(),
        trim_tail(p) == p.take(trim_tail(p).len() as int),
        trim_tail(p).len() > 0 <==> p.len() > 0,
        trim_tail(p).len() > 1 ==> trim_tail(p).last() != '/',
        trim_tail(trim_tail(p)) == trim_tail(p),
    decreases p.len(),
{
    if p.len() > 1 && (p.last() == '/' || p.last() == '.' && p[p.len() - 2] == '/') {
        lemma_trim_tail(p.drop_last());
        let n = trim_tail(p).len() as int;
        assert(p.drop_last().take(n) =~= p.take(n));
    } else {
        assert(p.take(p.len() as int) =~= p);
    }
}

/// What stands behind the last separator holds none.
pub proof fn lemma_name_start(p: Seq<char>)
    ensures
        0 <= name_start(p) <= p.len(),
        forall|i: int| name_start(p) <= i < p.len() ==> p[i] != '/',
        name_start(p) > 0 ==> p[name_start(p) - 1] == '/',
    decreases p.len(),
{
    if p.len() > 0 && p.last() != '/' {
        lemma_name_start(p.drop_last());
        assert forall|i: int| name_start(p) <= i < p.len() implies p[i] != '/' by {
            if i < p.len() - 1 {
                assert(p.drop_last()[i] == p[i]);
            }
        }
    }
}

/// The path above a path is shorter.
pub proof fn lemma_parent_shorter(p: Seq<char>)
    ensures
        parent(p) matches Some(q) ==> q.len() < p.len(),
{
    let q = trim_tail(p);
    lemma_trim_tail(p);
    lemma_name_start(q);
    lemma_trim_tail(q.take(name_start(q)));
    if q.len() > 0 && q != seq!['/'] && name_start(q) == q.len() {
        assert(q.last() == '/');
        assert(q =~= seq!['/']);
    }
}

/// Where the trimmed path ends.
fn trimmed_len(p: &Vec<char>, len: usize) -> (r: usize)
    requires
        len <= p@.len(),
    ensures
        r <= len,
        p@.take(r as int) == trim_tail(p@.take(len as int)),
{
    let mut n: usize = len;
    while n > 1 && (p[n - 1] == '/' || (p[n - 1] == '.' && p[n - 2] == '/'))
        invariant
            n <= len <= p@.len(),
            trim_tail(p@.take(n as int)) == trim_tail(p@.take(len as int)),
        decreases n,
    {
        assert(p@.take(n as int).drop_last() =~= p@.take(n - 1));
        n = n - 1;
    }
    n
}

/// The position behind the last separator before a position.
fn find_name_start(p: &Vec<char>, len: usize) -> (r: usize)
    requires
        len <= p@.len(),
    ensures
        r <= len,
        r == name_start(p@.take(len as int)),
{
    let mut n: usize = len;
    while n > 0 && p[n - 1] != '/'
        invariant
            n <= len <= p@.len(),
            name_start(p@.take(n as int)) == name_start(p@.take(len as int)),
        decreases n,
    {
        assert(p@.take(n as int).drop_last() =~= p@.take(n - 1));
        n = n - 1;
    }
    n
}

/// The path above a path: nothing above the root or the empty path.
pub fn parent_of(p: &str) -> (r: Option<String>)
    ensures
        text::view_opt(r) == parent(p@),
{
    let chars = chars_of(p);
    let n = chars.len();
    assert(chars@.take(n as int) =~= p@);
    let end = trimmed_len(&chars, n);
    let ghost q = trim_tail(p@);
    assert(chars@.take(end as int) == q);
    if end == 0 {
        return None;
    }
    if end == 1 && chars[0] == '/' {
        assert(q =~= seq!['/']);
        return None;
    }
    assert(q != seq!['/']) by {
        if q == seq!['/'] {
            assert(q.len() == 1 && q[0] == '/');
        }
    }
    let start = find_name_start(&chars, end);
    assert(q.take(start as int) =~= chars@.take(start as int));
    let stop = trimmed_len(&chars, start);
    assert(chars@.subrange(0, stop as int) =~= chars@.take(stop as int));
    Some(string_of(&chars, 0, stop))
}

/// The last part of a path, where it is a name.
pub open spec fn file_name(p: Seq<char>) -> Option<Seq<char>> {
    let q = trim_tail(p);
    let name = q.skip(name_start(q));
    if name.len() == 0 || name == "."@ || name == ".."@ {
        None
    } else {
        Some(name)
    }
}

/// The last part of a path, where it is a name.
pub fn file_name_of(p: &str) -> (r: Option<String>)
    ensures
        text::view_opt(r) == file_name(p@),
{
    let chars = chars_of(p);
    let n = chars.len();
    assert(chars@.take(n as int) =~= p@);
    let end = trimmed_len(&chars, n);
    let ghost q = trim_tail(p@);
    let start = find_name_start(&chars, end);
    assert(chars@.subrange(start as int, end as int) =~= q.skip(start as int));
    let name = string_of(&chars, start, end);
    if name.as_str().is_empty() || same(name.as_str(), ".") || same(name.as_str(), "..") {
        None
    } else {
        Some(name)
    }
}

/// The position behind the last dot, and zero without one.
pub open spec fn dot_end(s: Seq<char>) -> int
    decreases s.len(),
{
    if s.len() == 0 {
        0
    } else if s.last() == '.' {
        s.len() as int
    } else {
        dot_end(s.drop_last())
    }
}

/// What stands behind the last dot of the name of a file. A dot at its very beginning does not
/// count.
pub open spec fn extension(p: Seq<char>) -> Option<Seq<char>> {
    match file_name(p) {
        Some(name) => if dot_end(name) > 1 {
            Some(name.skip(dot_end(name)))
        } else {
            None
        },
        None => None,
    }
}

/// Where the part of a name behind its last dot starts.
fn find_dot_end(chars: &Vec<char>) -> (r: usize)
    ensures
        r == dot_end(chars@),
        r <= chars@.len(),
{
    let mut n: usize = chars.len();
    assert(chars@.take(n as int) =~= chars@);
    while n > 0 && chars[n - 1] != '.'
        invariant
            n <= chars@.len(),
            dot_end(chars@.take(n as int)) == dot_end(chars@),
        decreases n,
    {
        assert(chars@.take(n as int).drop_last() =~= chars@.take(n - 1));
        n = n - 1;
    }
    n
}

/// What stands behind the last dot of the name of a file.
pub fn extension_of(p: &str) -> (r: Option<String>)
    ensures
        text::view_opt(r) == extension(p@),
{
    match file_name_of(p) {
        Some(name) => {
            let chars = chars_of(name.as_str());
            let n = find_dot_end(&chars);
            if n > 1 {
                assert(chars@.subrange(n as int, chars@.len() as int) =~= name@.skip(n as int));
                Some(string_of(&chars, n, chars.len()))
            } else {
                None
            }
        },
        None => None,
    }
}

/// The name without its extension.
pub open spec fn file_stem(p: Seq<char>) -> Option<Seq<char>> {
    match file_name(p) {
        Some(name) => if dot_end(name) > 1 {
            Some(name.take(dot_end(name) - 1))
        } else {
            Some(name)
        },
        None => None,
    }
}

/// The name of a path without its extension.
pub fn file_stem_of(p: &str) -> (r: Option<String>)
    ensures
        text::view_opt(r) == file_stem(p@),
{
    match file_name_of(p) {
        Some(name) => {
            let chars = chars_of(name.as_str());
            let n = find_dot_end(&chars);
            if n > 1 {
                assert(chars@.subrange(0, n - 1) =~= name@.take(n - 1));
                Some(string_of(&chars, 0, n - 1))
            } else {
                Some(name)
            }
        },
        None => None,
    }
}

/// A name below a directory.
pub open spec fn below(dir: Seq<char>, name: Seq<char>) -> Seq<char> {
    if dir.len() == 0 || dir.last() == '/' {
        dir + name
    } else {
        dir + "/"@ + name
    }
}

/// A name below a directory.
pub fn join_path(dir: &str, name: &str) -> (r: String)
    requires
        name@.len() == 0 || name@[0] != '/',
    ensures
        r@ == below(dir@, name@),
{
    let chars = chars_of(dir);
    let n = chars.len();
    let mut r = dir.to_owned();
    if n > 0 && chars[n - 1] != '/' {
        r.append("/");
    }
    r.append(name);
    r
}

/// A part of a path.
pub enum PathPart {
    Root,
    Here,
    Name(String),
}

/// A part of a path.
pub enum PathPartView {
    Root,
    Here,
    Name(Seq<char>),
}

impl View for PathPart {
    type V = PathPartView;

    open spec fn view(&self) -> PathPartView {
        match self {
            PathPart::Root => PathPartView::Root,
            PathPart::Here => PathPartView::Here,
            PathPart::Name(s) => PathPartView::Name(s@),
        }
    }
}

/// The parts of a path, the outermost first.
pub open spec fn parts(p: Seq<char>) -> Seq<PathPartView>
    decreases p.len(),
{
    let q = trim_tail(p);
    let start = name_start(q);
    if q.len() == 0 {
        Seq::empty()
    } else if q == seq!['/'] {
        seq![PathPartView::Root]
    } else {
        proof {
            lemma_trim_tail(p);
            lemma_name_start(q);
            if start == q.len() {
                assert(q.last() == '/');
                assert(q =~= seq!['/']);
            }
        }
        let name = q.skip(start);
        if start == 0 && name == "."@ {
            seq![PathPartView::Here]
        } else {
            parts(q.take(start)).push(PathPartView::Name(name))
        }
    }
}

/// The parts of the beginning of a path.
fn parts_upto(p: &Vec<char>, len: usize) -> (r: Vec<PathPart>)
    requires
        len <= p@.len(),
    ensures
        text::views(r@) == parts(p@.take(len as int)),
    decreases len,
{
    let ghost whole = p@.take(len as int);
    let ghost q = trim_tail(whole);
    let end = trimmed_len(p, len);
    proof {
        lemma_trim_tail(whole);
        lemma_name_start(q);
    }
    let mut r: Vec<PathPart> = Vec::new();
    if end == 0 {
        assert(text::views(r@) =~= Seq::empty());
        return r;
    }
    if end == 1 && p[0] == '/' {
        assert(q =~= seq!['/']);
        r.push(PathPart::Root);
        assert(text::views(r@) =~= seq![PathPartView::Root]);
        return r;
    }
    assert(q != seq!['/']) by {
        if q == seq!['/'] {
            assert(q.len() == 1 && q[0] == '/');
        }
    }
    let start = find_name_start(p, end);
    proof {
        if start == end {
            assert(q.last() == '/');
        }
        assert(p@.subrange(start as int, end as int) =~= q.skip(start as int));
        assert(q.take(start as int) =~= p@.take(start as int));
    }
    let name = string_of(p, start, end);
    if start == 0 && same(name.as_str(), ".") {
        r.push(PathPart::Here);
        assert(text::views(r@) =~= seq![PathPartView::Here]);
        return r;
    }
    let mut r = parts_upto(p, start);
    let part = PathPart::Name(name);
    proof {
        text::lemma_views_push(r@, part);
    }
    r.push(part);
    r
}

/// The parts of a path, the outermost first.
pub fn parts_of(p: &str) -> (r: Vec<PathPart>)
    ensures
        text::views(r@) == parts(p@),
{
    let chars = chars_of(p);
    let n = chars.len();
    assert(chars@.take(n as int) =~= p@);
    parts_upto(&chars, n)
}

/// Whether a path lies at or below another.
pub open spec fn lies_below(p: Seq<char>, base: Seq<char>) -> bool {
    parts(base).len() <= parts(p).len() && parts(p).take(parts(base).len() as int) == parts(base)
}

/// Whether two parts are the same.
fn same_part(a: &PathPart, b: &PathPart) -> (r: bool)
    ensures
        r == (a@ == b@),
{
    match (a, b) {
        (PathPart::Root, PathPart::Root) => true,
        (PathPart::Here, PathPart::Here) => true,
        (PathPart::Name(x), PathPart::Name(y)) => same(x.as_str(), y.as_str()),
        _ => false,
    }
}

/// Whether a path lies at or below another.
pub fn is_below(p: &str, base: &str) -> (r: bool)
    ensures
        r == lies_below(p@, base@),
{
    let a = parts_of(p);
    let b = parts_of(base);
    let ghost pa = parts(p@);
    let ghost pb = parts(base@);
    if b.len() > a.len() {
        return false;
    }
    let mut i: usize = 0;
    while i < b.len()
        invariant
            text::views(a@) == pa,
            text::views(b@) == pb,
            pa == parts(p@),
            pb == parts(base@),
            b@.len() <= a@.len(),
            i <= b@.len(),
            forall|k: int| 0 <= k < i ==> pa[k] == pb[k],
        decreases b@.len() - i,
    {
        assert(pa[i as int] == a@[i as int]@ && pb[i as int] == b@[i as int]@);
        if !same_part(&a[i], &b[i]) {
            proof {
                if lies_below(p@, base@) {
                    assert(pa.take(pb.len() as int)[i as int] == pb[i as int]);
                }
            }
            return false;
        }
        i = i + 1;
    }
    assert(pa.take(pb.len() as int) =~= pb);
    true
}

/// Whether a path is the root of the file system.
pub open spec fn is_root(p: Seq<char>) -> bool {
    parts(p) == seq![PathPartView::Root]
}

/// Whether a path is the root of the file system.
pub fn is_filesystem_root(p: &str) -> (r: bool)
    ensures
        r == is_root(p@),
{
    let a = parts_of(p);
    if a.len() != 1 {
        assert(seq![PathPartView::Root].len() == 1);
        return false;
    }
    assert(parts(p@) =~= seq![a@[0]@]);
    match &a[0] {
        PathPart::Root => true,
        _ => {
            assert(parts(p@)[0] != PathPartView::Root);
            assert(seq![PathPartView::Root][0] == PathPartView::Root);
            false
        },
    }
}

} // verus!
