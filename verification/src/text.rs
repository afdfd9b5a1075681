//! Text as sequences of characters: comparison, search, splitting and numbers.
use vstd::prelude::*;
use vstd::string::*;

verus! {

/// `String::push` appends one character.
pub assume_specification[ String::push ](s: &mut String, c: char)
    ensures
        final(s)@ == old(s)@.push(c),
;

/// Whether a character has the Unicode `White_Space` property.
pub open spec fn is_white_space(c: char) -> bool {
    let n = c as u32;
    ||| 0x09 <= n <= 0x0d
    ||| n == 0x20
    ||| n == 0x85
    ||| n == 0xa0
    ||| n == 0x1680
    ||| 0x2000 <= n <= 0x200a
    ||| n == 0x2028
    ||| n == 0x2029
    ||| n == 0x202f
    ||| n == 0x205f
    ||| n == 0x3000
}

/// `char::is_whitespace` reports the Unicode `White_Space` property of a character, which the
/// listed code points have and no others.
pub assume_specification[ char::is_whitespace ](c: char) -> (r: bool)
    ensures
        r == is_white_space(c),
;

/// The views of a sequence of values.
pub open spec fn views<T: View>(s: Seq<T>) -> Seq<T::V> {
    s.map_values(|t: T| t@)
}

/// The view of an optional value.
pub open spec fn view_opt<T: View>(o: Option<T>) -> Option<T::V> {
    match o {
        Some(t) => Some(t@),
        None => None,
    }
}

/// Appending a value appends its view.
pub proof fn lemma_views_push<T: View>(s: Seq<T>, t: T)
    ensures
        views(s.push(t)) == views(s).push(t@),
{
    assert(views(s.push(t)) =~= views(s).push(t@));
}

/// Appending a value adds it to what a sequence contains.
pub proof fn lemma_push_contains<T>(s: Seq<T>, t: T)
    ensures
        forall|x: T| #[trigger] s.push(t).contains(x) <==> s.contains(x) || x == t,
{
    assert forall|x: T| #[trigger] s.push(t).contains(x) <==> s.contains(x) || x == t by {
        if s.contains(x) {
            let i = choose|i: int| 0 <= i < s.len() && s[i] == x;
            assert(s.push(t)[i] == x);
        }
        assert(s.push(t)[s.len() as int] == t);
    }
}

/// The characters of a text, one by one.
pub fn chars_of(s: &str) -> (r: Vec<char>)
    ensures
        r@ == s@,
{
    let mut v: Vec<char> = Vec::new();
    for c in it: s.chars()
        invariant
            it.seq() == s@,
            v@ == s@.take(it.index() as int),
    {
        v.push(c);
    }
    v
}

/// The text that a range of characters spells.
pub fn string_of(chars: &Vec<char>, from: usize, to: usize) -> (r: String)
    requires
        from <= to <= chars@.len(),
    ensures
        r@ == chars@.subrange(from as int, to as int),
{
    let mut r = String::new();
    let mut i: usize = from;
    while i < to
        invariant
            from <= i <= to <= chars@.len(),
            r@ == chars@.subrange(from as int, i as int),
        decreases to - i,
    {
        r.push(chars[i]);
        i = i + 1;
        assert(chars@.subrange(from as int, i as int) =~= chars@.subrange(
            from as int,
            i - 1,
        ).push(chars@[i - 1]));
    }
    r
}

/// Two texts are the same when their characters are.
pub fn same(a: &str, b: &str) -> (r: bool)
    ensures
        r == (a@ == b@),
{
    let x = a.as_bytes();
    let y = b.as_bytes();
    proof {
        vstd::utf8::encode_utf8_decode_utf8(a@);
        vstd::utf8::encode_utf8_decode_utf8(b@);
    }
    if x.len() != y.len() {
        return false;
    }
    let mut i: usize = 0;
    while i < x.len()
        invariant
            x@.len() == y@.len(),
            i <= x@.len(),
            x@ == a.spec_bytes(),
            y@ == b.spec_bytes(),
            forall|j: int| 0 <= j < i ==> x@[j] == y@[j],
        decreases x@.len() - i,
    {
        if x[i] != y[i] {
            return false;
        }
        i = i + 1;
    }
    assert(x@ =~= y@);
    true
}

/// The text `a` followed by the text `b`.
pub fn joined(a: &str, b: &str) -> (r: String)
    ensures
        r@ == a@ + b@,
{
    let mut r = a.to_owned();
    r.append(b);
    r
}

/// `parent::name`.
pub open spec fn scoped(parent: Seq<char>, name: Seq<char>) -> Seq<char> {
    parent + "::"@ + name
}

/// The text `parent::name`.
pub fn scoped_name(parent: &str, name: &str) -> (r: String)
    ensures
        r@ == scoped(parent@, name@),
{
    let mut r = parent.to_owned();
    r.append("::");
    r.append(name);
    r
}

/// Whether a scope separator stands at position `i`.
pub open spec fn sep_at(s: Seq<char>, i: int) -> bool {
    0 <= i && i + 1 < s.len() && s[i] == ':' && s[i + 1] == ':'
}

/// The position of the last scope separator.
pub open spec fn is_last_sep(s: Seq<char>, i: int) -> bool {
    sep_at(s, i) && forall|j: int| i < j ==> !sep_at(s, j)
}

/// Whether the text holds a scope separator.
pub open spec fn has_sep(s: Seq<char>) -> bool {
    exists|i: int| sep_at(s, i)
}

/// The position of the last scope separator, where there is one.
pub open spec fn last_sep(s: Seq<char>) -> Option<int> {
    if has_sep(s) {
        Some(choose|i: int| is_last_sep(s, i))
    } else {
        None
    }
}

/// What stands behind the last scope separator, or the whole text without one.
pub open spec fn simple(s: Seq<char>) -> Seq<char> {
    match last_sep(s) {
        Some(i) => s.skip(i + 2),
        None => s,
    }
}

/// A position that is the last separator is the one `last_sep` names.
pub proof fn lemma_last_sep(s: Seq<char>, i: int)
    requires
        is_last_sep(s, i),
    ensures
        last_sep(s) == Some(i),
{
    assert(sep_at(s, i));
    let k = choose|k: int| is_last_sep(s, k);
    assert(is_last_sep(s, k));
    if k < i {
        assert(!sep_at(s, i));
    }
    if i < k {
        assert(!sep_at(s, k));
    }
}

/// The position of the last scope separator among the characters.
pub fn find_last_sep(s: &Vec<char>) -> (r: Option<usize>)
    ensures
        match r {
            Some(i) => last_sep(s@) == Some(i as int) && sep_at(s@, i as int),
            None => last_sep(s@) is None,
        },
{
    let mut i: usize = s.len();
    while i > 0
        invariant
            i <= s@.len(),
            forall|j: int| i <= j ==> !sep_at(s@, j),
        decreases i,
    {
        i = i - 1;
        if i + 1 < s.len() && s[i] == ':' && s[i + 1] == ':' {
            proof {
                assert(sep_at(s@, i as int));
                lemma_last_sep(s@, i as int);
            }
            return Some(i);
        }
    }
    assert forall|j: int| !sep_at(s@, j) by {
        if sep_at(s@, j) {
            assert(0 <= j);
        }
    }
    None
}

/// Where there is a scope separator there is a last one.
proof fn lemma_has_last_sep(s: Seq<char>, i: int)
    requires
        sep_at(s, i),
    ensures
        exists|k: int| is_last_sep(s, k),
    decreases s.len() - i,
{
    if exists|j: int| i < j && sep_at(s, j) {
        lemma_has_last_sep(s, choose|j: int| i < j && sep_at(s, j));
    } else {
        assert(is_last_sep(s, i));
    }
}

/// What stands behind the last scope separator has none itself.
pub proof fn lemma_simple_twice(s: Seq<char>)
    ensures
        simple(simple(s)) == simple(s),
{
    if has_sep(s) {
        lemma_has_last_sep(s, choose|i: int| sep_at(s, i));
        let i = choose|i: int| is_last_sep(s, i);
        let t = s.skip(i + 2);
        if has_sep(t) {
            let k = choose|k: int| sep_at(t, k);
            assert(sep_at(s, i + 2 + k));
        }
    }
}

/// The last part of a name ends it, holds no scope separator, and stands behind the last one; a name
/// without a separator is its own last part.
pub proof fn law_last_part_of_a_name(s: Seq<char>)
    ensures
        simple(s).len() <= s.len(),
        s.skip(s.len() - simple(s).len()) == simple(s),
        forall|i: int|
            0 <= i && i + 1 < simple(s).len() ==> !(#[trigger] simple(s)[i] == ':' && simple(s)[i
                + 1] == ':'),
        simple(s) != s ==> {
            let n = s.len() - simple(s).len();
            n >= 2 && s[n - 1] == ':' && s[n - 2] == ':'
        },
        forall|i: int|
            0 <= i && i + 1 < s.len() && #[trigger] s[i] == ':' && s[i + 1] == ':'
                ==> simple(s).len() + 2 + i <= s.len(),
{
    if has_sep(s) {
        lemma_has_last_sep(s, choose|i: int| sep_at(s, i));
        let i = choose|i: int| is_last_sep(s, i);
        let t = s.skip(i + 2);
        assert(simple(s) == t);
        assert(s.skip(s.len() - t.len()) =~= t);
        assert forall|j: int| 0 <= j && j + 1 < t.len() implies !(#[trigger] t[j] == ':' && t[j + 1]
            == ':') by {
            assert(!sep_at(s, i + 2 + j));
        }
        assert forall|j: int|
            0 <= j && j + 1 < s.len() && #[trigger] s[j] == ':' && s[j + 1]
                == ':' implies simple(s).len() + 2 + j <= s.len() by {
            assert(sep_at(s, j));
        }
    } else {
        assert(s.skip(0) =~= s);
        assert forall|j: int| 0 <= j && j + 1 < s.len() implies !(#[trigger] s[j] == ':' && s[j + 1]
            == ':') by {
            assert(!sep_at(s, j));
        }
    }
}

/// The part of a name behind its last scope separator.
pub fn simple_name(name: &str) -> (r: String)
    ensures
        r@ == simple(name@),
{
    let chars = chars_of(name);
    let n = chars.len();
    match find_last_sep(&chars) {
        Some(i) => {
            assert(chars@.subrange(i + 2, chars@.len() as int) =~= chars@.skip(i + 2));
            string_of(&chars, i + 2, n)
        },
        None => name.to_owned(),
    }
}

/// A name split at its last scope separator into qualifier and simple name.
pub fn split_last(name: &str) -> (r: Option<(String, String)>)
    ensures
        match r {
            Some((q, n)) => {
                &&& last_sep(name@) is Some
                &&& q@ == name@.take(last_sep(name@)->0)
                &&& n@ == simple(name@)
            },
            None => last_sep(name@) is None,
        },
{
    let chars = chars_of(name);
    let n = chars.len();
    match find_last_sep(&chars) {
        Some(i) => {
            assert(chars@.subrange(i + 2, chars@.len() as int) =~= chars@.skip(i + 2));
            assert(chars@.subrange(0, i as int) =~= chars@.take(i as int));
            Some((string_of(&chars, 0, i), string_of(&chars, i + 2, n)))
        },
        None => None,
    }
}

/// The first scope separator at or behind position `from`, or the length.
pub open spec fn first_sep(s: Seq<char>, from: int) -> int
    decreases s.len() - from,
{
    if from + 1 >= s.len() {
        s.len() as int
    } else if sep_at(s, from) {
        from
    } else {
        first_sep(s, from + 1)
    }
}

/// A separator found from the left is inside the text.
pub proof fn lemma_first_sep(s: Seq<char>, from: int)
    requires
        0 <= from <= s.len(),
    ensures
        from <= first_sep(s, from) <= s.len(),
        first_sep(s, from) < s.len() ==> sep_at(s, first_sep(s, from)),
    decreases s.len() - from,
{
    if from + 1 < s.len() && !sep_at(s, from) {
        lemma_first_sep(s, from + 1);
    }
}

/// Where the last part starts when the text is cut at its separators from the left,
/// beginning at `from`.
pub open spec fn last_part_start(s: Seq<char>, from: int) -> int
    decreases s.len() - from,
{
    if from <= first_sep(s, from) && sep_at(s, first_sep(s, from)) {
        last_part_start(s, first_sep(s, from) + 2)
    } else {
        from
    }
}

/// The last of the parts into which the separators cut the text from the left.
pub open spec fn last_part(s: Seq<char>) -> Seq<char> {
    s.skip(last_part_start(s, 0))
}

/// Where the last part starts.
proof fn lemma_last_part_start(s: Seq<char>, from: int)
    requires
        0 <= from <= s.len(),
    ensures
        ({
            let r = last_part_start(s, from);
            &&& from <= r <= s.len()
            &&& forall|j: int| r <= j ==> !sep_at(s, j)
            &&& r > from ==> r >= 2 && sep_at(s, r - 2)
            &&& (exists|j: int| from <= j && sep_at(s, j)) ==> r > from
        }),
    decreases s.len() - from,
{
    lemma_first_sep(s, from);
    lemma_no_sep_before(s, from);
    let k = first_sep(s, from);
    if sep_at(s, k) {
        lemma_last_part_start(s, k + 2);
    }
}

/// No separator stands in front of the first.
proof fn lemma_no_sep_before(s: Seq<char>, from: int)
    requires
        0 <= from <= s.len(),
    ensures
        forall|j: int| from <= j < first_sep(s, from) ==> !sep_at(s, j),
    decreases s.len() - from,
{
    if from + 1 < s.len() && !sep_at(s, from) {
        lemma_no_sep_before(s, from + 1);
    }
}

/// What a qualified name ends in ends its text, holds no scope separator, and stands behind one
/// unless the text has none.
pub proof fn law_what_a_qualified_name_ends_in(s: Seq<char>)
    ensures
        last_part(s).len() <= s.len(),
        s.skip(s.len() - last_part(s).len()) == last_part(s),
        forall|i: int|
            0 <= i && i + 1 < last_part(s).len() ==> !(#[trigger] last_part(s)[i] == ':'
                && last_part(s)[i + 1] == ':'),
        last_part(s) != s ==> {
            let n = s.len() - last_part(s).len();
            n >= 2 && s[n - 1] == ':' && s[n - 2] == ':'
        },
        forall|i: int|
            0 <= i && i + 1 < s.len() && #[trigger] s[i] == ':' && s[i + 1] == ':' ==> last_part(s)
                != s,
{
    let r = last_part_start(s, 0);
    let t = last_part(s);
    lemma_last_part_start(s, 0);
    assert(s.skip(s.len() - t.len()) =~= t);
    assert(r == 0 ==> t =~= s);
    assert forall|i: int| 0 <= i && i + 1 < t.len() implies !(#[trigger] t[i] == ':' && t[i + 1]
        == ':') by {
        assert(!sep_at(s, r + i));
    }
    assert forall|i: int|
        0 <= i && i + 1 < s.len() && #[trigger] s[i] == ':' && s[i + 1] == ':' implies t != s by {
        assert(sep_at(s, i));
        assert(t.len() < s.len());
    }
}

/// The last of the parts into which the separators cut the text from the left.
pub fn last_part_of(s: &str) -> (r: String)
    ensures
        r@ == last_part(s@),
{
    let chars = chars_of(s);
    let mut start: usize = 0;
    let mut i: usize = 0;
    while i < chars.len() && i + 1 < chars.len()
        invariant
            chars@ == s@,
            start <= i <= chars@.len(),
            last_part_start(s@, 0) == last_part_start(s@, start as int),
            first_sep(s@, start as int) == first_sep(s@, i as int),
        decreases chars@.len() - i,
    {
        if chars[i] == ':' && chars[i + 1] == ':' {
            proof {
                assert(sep_at(s@, i as int));
            }
            i = i + 2;
            start = i;
        } else {
            i = i + 1;
        }
    }
    proof {
        lemma_first_sep(s@, start as int);
        assert(last_part_start(s@, start as int) == start);
        assert(chars@.subrange(start as int, chars@.len() as int) =~= chars@.skip(start as int));
    }
    string_of(&chars, start, chars.len())
}

/// Whether `part` stands at position `i` of `s`.
pub open spec fn found_at(s: Seq<char>, part: Seq<char>, i: int) -> bool {
    0 <= i && i + part.len() <= s.len() && s.subrange(i, i + part.len()) == part
}

/// Whether `part` occurs in `s`.
pub open spec fn contains_text(s: Seq<char>, part: Seq<char>) -> bool {
    exists|i: int| found_at(s, part, i)
}

/// Whether `part` stands at position `i`.
pub fn stands_at(s: &Vec<char>, part: &Vec<char>, i: usize) -> (r: bool)
    ensures
        r == found_at(s@, part@, i as int),
{
    if part.len() > s.len() || i > s.len() - part.len() {
        return false;
    }
    let n = s.len();
    let mut k: usize = 0;
    while k < part.len()
        invariant
            n == s@.len(),
            i + part@.len() <= n,
            k <= part@.len(),
            forall|j: int| 0 <= j < k ==> s@[i + j] == part@[j],
        decreases part@.len() - k,
    {
        if s[i + k] != part[k] {
            assert(s@.subrange(i as int, i + part@.len())[k as int] != part@[k as int]);
            return false;
        }
        k = k + 1;
    }
    assert(s@.subrange(i as int, i + part@.len()) =~= part@);
    true
}

/// Whether `part` occurs in `s`.
pub fn contains(s: &str, part: &str) -> (r: bool)
    ensures
        r == contains_text(s@, part@),
{
    let sc = chars_of(s);
    let pc = chars_of(part);
    if pc.len() > sc.len() {
        return false;
    }
    let last: usize = sc.len() - pc.len();
    let mut i: usize = 0;
    while i <= last
        invariant
            sc@ == s@,
            pc@ == part@,
            last == sc@.len() - pc@.len(),
            i <= last + 1,
            forall|j: int| 0 <= j < i ==> !found_at(s@, part@, j),
        decreases last + 1 - i,
    {
        if stands_at(&sc, &pc, i) {
            return true;
        }
        if i == last {
            assert forall|j: int| !found_at(s@, part@, j) by {
                if found_at(s@, part@, j) {
                    assert(j <= last);
                }
            }
            return false;
        }
        i = i + 1;
    }
    false
}

/// Whether `s` begins with `part`.
pub open spec fn begins_with(s: Seq<char>, part: Seq<char>) -> bool {
    found_at(s, part, 0)
}

/// Whether `s` begins with `part`.
pub fn starts_with(s: &str, part: &str) -> (r: bool)
    ensures
        r == begins_with(s@, part@),
{
    let sc = chars_of(s);
    let pc = chars_of(part);
    stands_at(&sc, &pc, 0)
}

/// The text behind `part`, where `s` begins with it.
pub fn strip_prefix(s: &str, part: &str) -> (r: Option<String>)
    ensures
        match r {
            Some(t) => begins_with(s@, part@) && t@ == s@.skip(part@.len() as int),
            None => !begins_with(s@, part@),
        },
{
    let sc = chars_of(s);
    let pc = chars_of(part);
    if stands_at(&sc, &pc, 0) {
        assert(sc@.subrange(pc@.len() as int, sc@.len() as int) =~= sc@.skip(pc@.len() as int));
        Some(string_of(&sc, pc.len(), sc.len()))
    } else {
        None
    }
}

/// A letter `A` to `Z` in lower case; any other character as it is.
pub open spec fn ascii_lower(c: char) -> char {
    if 'A' <= c && c <= 'Z' {
        ((c as u32 + 32) as u32) as char
    } else {
        c
    }
}

/// Whether a text has ASCII characters only.
pub open spec fn is_ascii_text(s: Seq<char>) -> bool {
    forall|i: int| 0 <= i < s.len() ==> (#[trigger] s[i]) as u32 <= 0x7f
}

/// A text with its letters `A` to `Z` in lower case.
pub open spec fn ascii_lowered(s: Seq<char>) -> Seq<char> {
    s.map_values(|c: char| ascii_lower(c))
}

/// A text with its letters `A` to `Z` in lower case.
pub fn to_ascii_lower(s: &str) -> (r: String)
    ensures
        r@ == ascii_lowered(s@),
{
    let chars = chars_of(s);
    let mut r = String::new();
    let mut i: usize = 0;
    while i < chars.len()
        invariant
            chars@ == s@,
            i <= chars@.len(),
            r@ == ascii_lowered(s@.take(i as int)),
        decreases chars@.len() - i,
    {
        let c: char = chars[i];
        let low: char = if 'A' <= c && c <= 'Z' {
            let b: u8 = c as u8;
            (b + 32) as char
        } else {
            c
        };
        r.push(low);
        i = i + 1;
        assert(ascii_lowered(s@.take(i as int)) =~= ascii_lowered(s@.take(i - 1)).push(
            ascii_lower(s@[i - 1]),
        ));
    }
    assert(s@.take(i as int) =~= s@);
    r
}

/// A text without the white space at its end.
pub open spec fn trimmed_end(s: Seq<char>) -> Seq<char>
    decreases s.len(),
{
    if s.len() > 0 && is_white_space(s.last()) {
        trimmed_end(s.drop_last())
    } else {
        s
    }
}

/// A text without the white space at its beginning.
pub open spec fn trimmed_start(s: Seq<char>) -> Seq<char>
    decreases s.len(),
{
    if s.len() > 0 && is_white_space(s[0]) {
        trimmed_start(s.skip(1))
    } else {
        s
    }
}

/// A text without the white space around it.
pub open spec fn trimmed(s: Seq<char>) -> Seq<char> {
    trimmed_end(trimmed_start(s))
}

/// A text without the white space around it.
pub fn trim(s: &str) -> (r: String)
    ensures
        r@ == trimmed(s@),
{
    let chars = chars_of(s);
    let n = chars.len();
    let mut from: usize = 0;
    assert(s@.skip(0) =~= s@);
    while from < n && chars[from].is_whitespace()
        invariant
            chars@ == s@,
            n == chars@.len(),
            from <= n,
            trimmed_start(s@) == trimmed_start(s@.skip(from as int)),
        decreases n - from,
    {
        assert(s@.skip(from as int).skip(1) =~= s@.skip(from + 1));
        from = from + 1;
    }
    let ghost rest = s@.skip(from as int);
    assert(trimmed_start(s@) == rest);
    let mut to: usize = n;
    assert(s@.subrange(from as int, n as int) =~= rest);
    while to > from && chars[to - 1].is_whitespace()
        invariant
            chars@ == s@,
            n == chars@.len(),
            from <= to <= n,
            rest == s@.skip(from as int),
            trimmed_end(rest) == trimmed_end(s@.subrange(from as int, to as int)),
        decreases to - from,
    {
        assert(s@.subrange(from as int, to as int).drop_last() =~= s@.subrange(
            from as int,
            to - 1,
        ));
        to = to - 1;
    }
    string_of(&chars, from, to)
}

/// The parts joined by a separator.
pub open spec fn join(parts: Seq<Seq<char>>, sep: Seq<char>) -> Seq<char>
    decreases parts.len(),
{
    if parts.len() == 0 {
        Seq::empty()
    } else if parts.len() == 1 {
        parts[0]
    } else {
        join(parts.drop_last(), sep) + sep + parts.last()
    }
}

/// The parts joined by a separator.
pub fn join_texts(parts: &Vec<String>, sep: &str) -> (r: String)
    ensures
        r@ == join(views(parts@), sep@),
{
    let mut r = String::new();
    let mut i: usize = 0;
    while i < parts.len()
        invariant
            i <= parts@.len(),
            r@ == join(views(parts@).take(i as int), sep@),
        decreases parts@.len() - i,
    {
        if i > 0 {
            r.append(sep);
        }
        r.append(parts[i].as_str());
        i = i + 1;
        proof {
            assert(views(parts@).take(i as int).drop_last() =~= views(parts@).take(i - 1));
            assert(views(parts@).take(i as int).last() == parts@[i - 1]@);
        }
    }
    assert(views(parts@).take(i as int) =~= views(parts@));
    r
}

/// The lines of a text: what stands between its line feeds.
pub open spec fn lines(s: Seq<char>) -> Seq<Seq<char>>
    decreases s.len(),
{
    if s.len() == 0 {
        seq![s]
    } else {
        let before = lines(s.drop_last());
        if s.last() == '\n' {
            before.push(Seq::empty())
        } else {
            before.update(before.len() - 1, before.last().push(s.last()))
        }
    }
}

/// There is at least one line.
pub proof fn lemma_lines_nonempty(s: Seq<char>)
    ensures
        lines(s).len() >= 1,
    decreases s.len(),
{
    if s.len() > 0 {
        lemma_lines_nonempty(s.drop_last());
    }
}

/// Tells line feeds.
pub open spec fn is_line_feed() -> spec_fn(char) -> bool {
    |c: char| c == '\n'
}

/// A text has one line more than it has line feeds, no line holds a line feed, and the lines
/// joined by line feeds are the text.
pub proof fn law_lines(s: Seq<char>)
    ensures
        lines(s).len() == s.filter(is_line_feed()).len() + 1,
        forall|i: int| 0 <= i < lines(s).len() ==> !(#[trigger] lines(s)[i]).contains('\n'),
        join(lines(s), "\n"@) == s,
    decreases s.len(),
{
    reveal(Seq::filter);
    reveal_strlit("\n");
    let feed = "\n"@;
    assert(feed =~= seq!['\n']);
    let all = lines(s);
    if s.len() == 0 {
        assert(s.filter(is_line_feed()).len() == 0);
        assert(join(all, feed) =~= s);
    } else {
        let short = s.drop_last();
        let before = lines(short);
        law_lines(short);
        lemma_lines_nonempty(short);
        assert(s =~= short.push(s.last()));
        if s.last() == '\n' {
            assert(all.drop_last() =~= before);
            assert(join(all, feed) =~= s);
        } else {
            let last = before.last().push(s.last());
            assert(all.drop_last() =~= before.drop_last());
            assert(all.last() == last);
            assert forall|i: int| 0 <= i < all.len() implies !(#[trigger] all[i]).contains(
                '\n',
            ) by {
                if i < before.len() - 1 {
                    assert(all[i] == before[i]);
                } else {
                    assert(!before[before.len() - 1].contains('\n'));
                    lemma_push_contains(before.last(), s.last());
                }
            }
            if before.len() == 1 {
                assert(join(all, feed) =~= s);
            } else {
                assert(join(all, feed) =~= s);
            }
        }
    }
}

/// The lines of a text: what stands between its line feeds.
pub fn lines_of(s: &str) -> (r: Vec<String>)
    ensures
        views(r@) == lines(s@),
{
    let chars = chars_of(s);
    let mut done: Vec<String> = Vec::new();
    let mut line = String::new();
    let mut i: usize = 0;
    assert(s@.take(0) =~= line@);
    assert(views(done@).push(line@) =~= lines(s@.take(0)));
    while i < chars.len()
        invariant
            chars@ == s@,
            i <= chars@.len(),
            views(done@).push(line@) == lines(s@.take(i as int)),
        decreases chars@.len() - i,
    {
        let c: char = chars[i];
        let ghost before = lines(s@.take(i as int));
        let ghost shown = views(done@);
        i = i + 1;
        proof {
            assert(s@.take(i as int).drop_last() =~= s@.take(i - 1));
            assert(s@.take(i as int).last() == c);
            assert(before.last() == line@);
        }
        if c == '\n' {
            proof {
                lemma_views_push(done@, line);
            }
            done.push(line);
            line = String::new();
            assert(views(done@).push(line@) =~= lines(s@.take(i as int)));
        } else {
            line.push(c);
            assert(views(done@).push(line@) =~= lines(s@.take(i as int)));
        }
    }
    proof {
        assert(s@.take(i as int) =~= s@);
        lemma_views_push(done@, line);
    }
    done.push(line);
    done
}

/// The position of the first occurrence of a character.
pub open spec fn first_char(s: Seq<char>, c: char) -> Option<int>
    decreases s.len(),
{
    if s.len() == 0 {
        None
    } else {
        match first_char(s.drop_last(), c) {
            Some(i) => Some(i),
            None => if s.last() == c {
                Some(s.len() - 1)
            } else {
                None
            },
        }
    }
}

/// What stands before the first occurrence of a character and what stands after it.
pub open spec fn cut(s: Seq<char>, c: char) -> Option<(Seq<char>, Seq<char>)> {
    match first_char(s, c) {
        Some(i) => Some((s.take(i), s.skip(i + 1))),
        None => None,
    }
}

/// The first occurrence does not change when characters follow.
proof fn lemma_first_char(s: Seq<char>, c: char, n: int)
    requires
        0 <= n <= s.len(),
        first_char(s.take(n), c) is Some,
    ensures
        first_char(s, c) == first_char(s.take(n), c),
    decreases s.len() - n,
{
    if n < s.len() {
        assert(s.take(n + 1).drop_last() =~= s.take(n));
        lemma_first_char(s, c, n + 1);
    } else {
        assert(s.take(n) =~= s);
    }
}

/// What stands before the first occurrence of a character and what stands after it.
pub fn split_once(s: &str, c: char) -> (r: Option<(String, String)>)
    ensures
        match r {
            Some((a, b)) => cut(s@, c) == Some((a@, b@)),
            None => cut(s@, c) is None,
        },
{
    let chars = chars_of(s);
    let mut i: usize = 0;
    assert(s@.take(0) =~= Seq::<char>::empty());
    while i < chars.len()
        invariant
            chars@ == s@,
            i <= chars@.len(),
            first_char(s@.take(i as int), c) is None,
        decreases chars@.len() - i,
    {
        proof {
            assert(s@.take(i + 1).drop_last() =~= s@.take(i as int));
        }
        if chars[i] == c {
            proof {
                lemma_first_char(s@, c, i + 1);
                assert(s@.subrange(0, i as int) =~= s@.take(i as int));
                assert(s@.subrange(i + 1, s@.len() as int) =~= s@.skip(i + 1));
            }
            return Some((string_of(&chars, 0, i), string_of(&chars, i + 1, chars.len())));
        }
        i = i + 1;
    }
    assert(s@.take(i as int) =~= s@);
    None
}

/// Whether a text comes before another when both are compared character by character.
pub open spec fn before(a: Seq<char>, b: Seq<char>) -> bool
    decreases a.len(),
{
    if b.len() == 0 {
        false
    } else if a.len() == 0 {
        true
    } else {
        a[0] < b[0] || (a[0] == b[0] && before(a.skip(1), b.skip(1)))
    }
}

/// The order of texts is transitive, and of two different texts one comes before the other.
pub proof fn lemma_before(a: Seq<char>, b: Seq<char>, c: Seq<char>)
    ensures
        before(a, b) && before(b, c) ==> before(a, c),
        a != b ==> before(a, b) || before(b, a),
        !(before(a, b) && before(b, a)),
    decreases a.len() + b.len() + c.len(),
{
    if a.len() > 0 && b.len() > 0 {
        lemma_before(a.skip(1), b.skip(1), if c.len() > 0 {
            c.skip(1)
        } else {
            c
        });
        if a[0] == b[0] && a.skip(1) == b.skip(1) {
            assert(a =~= seq![a[0]] + a.skip(1));
            assert(b =~= seq![b[0]] + b.skip(1));
        }
    } else {
        assert(a.len() == 0 && b.len() == 0 ==> a =~= b);
    }
}

/// Whether a text comes before another when both are compared character by character.
pub fn is_before(a: &str, b: &str) -> (r: bool)
    ensures
        r == before(a@, b@),
{
    let x = chars_of(a);
    let y = chars_of(b);
    let mut i: usize = 0;
    assert(a@.skip(0) =~= a@ && b@.skip(0) =~= b@);
    while i < x.len() && i < y.len()
        invariant
            x@ == a@,
            y@ == b@,
            i <= x@.len(),
            i <= y@.len(),
            before(a@, b@) == before(a@.skip(i as int), b@.skip(i as int)),
        decreases x@.len() - i,
    {
        proof {
            assert(a@.skip(i as int).skip(1) =~= a@.skip(i + 1));
            assert(b@.skip(i as int).skip(1) =~= b@.skip(i + 1));
        }
        if x[i] != y[i] {
            return x[i] < y[i];
        }
        i = i + 1;
    }
    i < y.len()
}

/// The character of a decimal or hexadecimal digit.
pub open spec fn digit_char(d: int) -> char {
    if d == 0 {
        '0'
    } else if d == 1 {
        '1'
    } else if d == 2 {
        '2'
    } else if d == 3 {
        '3'
    } else if d == 4 {
        '4'
    } else if d == 5 {
        '5'
    } else if d == 6 {
        '6'
    } else if d == 7 {
        '7'
    } else if d == 8 {
        '8'
    } else if d == 9 {
        '9'
    } else if d == 10 {
        'a'
    } else if d == 11 {
        'b'
    } else if d == 12 {
        'c'
    } else if d == 13 {
        'd'
    } else if d == 14 {
        'e'
    } else {
        'f'
    }
}

/// The character of a decimal or hexadecimal digit.
pub fn digit(d: u8) -> (r: char)
    requires
        d < 16,
    ensures
        r == digit_char(d as int),
{
    if d == 0 {
        '0'
    } else if d == 1 {
        '1'
    } else if d == 2 {
        '2'
    } else if d == 3 {
        '3'
    } else if d == 4 {
        '4'
    } else if d == 5 {
        '5'
    } else if d == 6 {
        '6'
    } else if d == 7 {
        '7'
    } else if d == 8 {
        '8'
    } else if d == 9 {
        '9'
    } else if d == 10 {
        'a'
    } else if d == 11 {
        'b'
    } else if d == 12 {
        'c'
    } else if d == 13 {
        'd'
    } else if d == 14 {
        'e'
    } else {
        'f'
    }
}

/// A number in decimal, without leading zeros.
pub open spec fn decimal(n: nat) -> Seq<char>
    decreases n,
{
    if n < 10 {
        seq![digit_char(n as int)]
    } else {
        decimal(n / 10).push(digit_char((n % 10) as int))
    }
}

/// A number in decimal, without leading zeros.
pub fn decimal_of(n: u128) -> (r: String)
    ensures
        r@ == decimal(n as nat),
    decreases n,
{
    let mut r: String = if n < 10 {
        String::new()
    } else {
        decimal_of(n / 10)
    };
    r.push(digit((n % 10) as u8));
    assert(r@ =~= decimal(n as nat));
    r
}

/// The last `width` hexadecimal digits of a number, in lower case.
pub open spec fn hex(n: nat, width: nat) -> Seq<char>
    decreases width,
{
    if width == 0 {
        Seq::empty()
    } else {
        hex(n / 16, (width - 1) as nat).push(digit_char((n % 16) as int))
    }
}

/// The last `width` hexadecimal digits of a number, in lower case.
pub fn hex_of(n: u64, width: u64) -> (r: String)
    ensures
        r@ == hex(n as nat, width as nat),
    decreases width,
{
    if width == 0 {
        let r = String::new();
        assert(r@ =~= hex(n as nat, width as nat));
        return r;
    }
    let mut r = hex_of(n / 16, width - 1);
    r.push(digit((n % 16) as u8));
    r
}

/// The value of a decimal digit.
pub open spec fn digit_value(c: char) -> Option<int> {
    if '0' <= c && c <= '9' {
        Some(c as int - '0' as int)
    } else {
        None
    }
}

/// The number that decimal digits spell, if nothing but digits stands there.
pub open spec fn digits_value(s: Seq<char>) -> Option<int>
    decreases s.len(),
{
    if s.len() == 0 {
        Some(0)
    } else {
        match (digits_value(s.drop_last()), digit_value(s.last())) {
            (Some(high), Some(low)) => Some(high * 10 + low),
            _ => None,
        }
    }
}

/// The digits of a number without its sign `+`.
pub open spec fn unsigned_digits(s: Seq<char>) -> Seq<char> {
    if s.len() > 0 && s[0] == '+' {
        s.skip(1)
    } else {
        s
    }
}

/// The number not above `max` that a text spells: an optional `+`, then digits.
pub open spec fn number_upto(s: Seq<char>, max: int) -> Option<int> {
    let digits = unsigned_digits(s);
    if digits.len() == 0 {
        None
    } else {
        match digits_value(digits) {
            Some(n) => if n <= max {
                Some(n)
            } else {
                None
            },
            None => None,
        }
    }
}

/// A prefix of a number is no greater than the number.
pub proof fn lemma_digits_prefix(s: Seq<char>, k: int)
    requires
        0 <= k <= s.len(),
        digits_value(s) is Some,
    ensures
        digits_value(s.take(k)) is Some,
        0 <= digits_value(s.take(k))->0 <= digits_value(s)->0,
    decreases s.len(),
{
    if k == s.len() {
        assert(s.take(k) =~= s);
        if s.len() > 0 {
            lemma_digits_prefix(s.drop_last(), s.len() - 1);
            assert(s.drop_last().take(s.len() - 1) =~= s.drop_last());
        }
    } else {
        lemma_digits_prefix(s.drop_last(), k);
        assert(s.drop_last().take(k) =~= s.take(k));
    }
}

/// The number not above `max` that a text spells: an optional `+`, then digits.
pub fn parse_number(s: &str, max: u64) -> (r: Option<u64>)
    ensures
        match r {
            Some(n) => number_upto(s@, max as int) == Some(n as int),
            None => number_upto(s@, max as int) is None,
        },
{
    let chars = chars_of(s);
    let from: usize = if chars.len() > 0 && chars[0] == '+' {
        1
    } else {
        0
    };
    let ghost digits = unsigned_digits(s@);
    assert(digits =~= s@.skip(from as int));
    if from == chars.len() {
        return None;
    }
    let mut n: u64 = 0;
    let mut i: usize = from;
    while i < chars.len()
        invariant
            chars@ == s@,
            from <= i <= chars@.len(),
            digits == unsigned_digits(s@),
            digits == s@.skip(from as int),
            digits_value(digits.take(i - from)) == Some(n as int),
            n <= max,
        decreases chars@.len() - i,
    {
        let c: char = chars[i];
        let ghost k = i - from;
        proof {
            assert(digits.take(k + 1).drop_last() =~= digits.take(k));
            assert(digits.take(k + 1).last() == c);
            assert(digits.take(digits.len() as int) =~= digits);
            if digits_value(digits) is Some {
                lemma_digits_prefix(digits, k + 1);
            }
        }
        if !('0' <= c && c <= '9') {
            return None;
        }
        let d: u64 = (c as u8 - 48) as u64;
        if n > max / 10 {
            proof {
                assert(n * 10 > max) by (nonlinear_arith)
                    requires
                        n > max / 10,
                ;
            }
            return None;
        }
        if d > max || n * 10 > max - d {
            return None;
        }
        n = n * 10 + d;
        i = i + 1;
    }
    assert(digits.take(i - from) =~= digits);
    Some(n)
}

} // verus!
