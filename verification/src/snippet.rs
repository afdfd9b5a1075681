//! Source lines around a place.
use crate::json::{Fields, Json, JsonView};
use crate::json;
use crate::text::{chars_of, decimal_of, lines_of, string_of};
use crate::text;
use vstd::prelude::*;

verus! {

/// Source lines around a line.
#[derive(Debug)]
pub struct Snippet {
    pub file: String,
    pub focus_line: usize,
    pub start_line: usize,
    pub end_line: usize,
    pub text: String,
}

/// Source lines around a line.
pub struct SnippetView {
    pub file: Seq<char>,
    pub focus_line: usize,
    pub start_line: usize,
    pub end_line: usize,
    pub text: Seq<char>,
}

impl View for Snippet {
    type V = SnippetView;

    open spec fn view(&self) -> SnippetView {
        SnippetView {
            file: self.file@,
            focus_line: self.focus_line,
            start_line: self.start_line,
            end_line: self.end_line,
            text: self.text@,
        }
    }
}

/// A line without the carriage return before its line feed.
pub open spec fn without_return(line: Seq<char>) -> Seq<char> {
    if line.len() > 0 && line.last() == '\r' {
        line.drop_last()
    } else {
        line
    }
}

/// The lines of a source: each without its line ending, and none after the last line feed.
pub open spec fn source_lines(s: Seq<char>) -> Seq<Seq<char>> {
    let all = text::lines(s);
    let ended = all.drop_last().map_values(|l: Seq<char>| without_return(l));
    if all.last().len() == 0 {
        ended
    } else {
        ended.push(all.last())
    }
}

/// The lines of a source.
pub fn source_lines_of(s: &str) -> (r: Vec<String>)
    ensures
        text::views(r@) == source_lines(s@),
{
    let all = lines_of(s);
    let ghost wanted = text::views(all@);
    proof {
        text::lemma_lines_nonempty(s@);
    }
    let mut r: Vec<String> = Vec::new();
    let n = all.len() - 1;
    let mut i: usize = 0;
    while i < n
        invariant
            wanted == text::views(all@),
            n == all@.len() - 1,
            i <= n,
            r@.len() == i,
            forall|k: int| 0 <= k < i ==> (#[trigger] r@[k])@ == without_return(wanted[k]),
        decreases n - i,
    {
        let chars = chars_of(all[i].as_str());
        let len = chars.len();
        assert(wanted[i as int] == chars@);
        if len > 0 && chars[len - 1] == '\r' {
            assert(chars@.subrange(0, len - 1) =~= chars@.drop_last());
            r.push(string_of(&chars, 0, len - 1));
        } else {
            r.push(all[i].clone());
        }
        i = i + 1;
    }
    let ghost ended = wanted.drop_last().map_values(|l: Seq<char>| without_return(l));
    assert(text::views(r@) =~= ended);
    assert(wanted.last() == all@[n as int]@);
    if !all[n].as_str().is_empty() {
        let last = all[n].clone();
        proof {
            text::lemma_views_push(r@, last);
        }
        r.push(last);
    }
    r
}

/// A text moved to the right until it takes up a width.
pub open spec fn right_aligned(s: Seq<char>, width: nat) -> Seq<char>
    decreases width - s.len(),
{
    if s.len() >= width {
        s
    } else {
        right_aligned(seq![' '] + s, width)
    }
}

/// Spaces before a text: as many as it lacks to a width.
proof fn lemma_right_aligned(s: Seq<char>, width: nat, n: nat)
    requires
        n == if s.len() >= width {
            0
        } else {
            width - s.len()
        },
    ensures
        right_aligned(s, width) == Seq::new(n, |i: int| ' ') + s,
    decreases n,
{
    if n == 0 {
        assert(Seq::new(n, |i: int| ' ') + s =~= s);
    } else {
        lemma_right_aligned(seq![' '] + s, width, (n - 1) as nat);
        assert(Seq::new((n - 1) as nat, |i: int| ' ') + (seq![' '] + s) =~= Seq::new(
            n,
            |i: int| ' ',
        ) + s);
    }
}

/// A numbered line: `>` marks the line in focus.
pub open spec fn numbered(number: int, focus: int, line: Seq<char>) -> Seq<char> {
    (if number == focus {
        ">"@
    } else {
        " "@
    }) + right_aligned(text::decimal(number as nat), 6) + ": "@ + line + "\n"@
}

/// The numbered lines of a range.
pub open spec fn numbered_lines(lines: Seq<Seq<char>>, start: int, end: int, focus: int) -> Seq<
    char,
>
    decreases end - start + 1,
{
    if end < start {
        Seq::empty()
    } else {
        numbered_lines(lines, start, end - 1, focus) + numbered(end, focus, lines[end - 1])
    }
}

/// The first line to show.
pub open spec fn first_shown(line: usize, radius: usize) -> int {
    if line - radius < 1 {
        1
    } else {
        line - radius
    }
}

/// The last line to show.
pub open spec fn last_shown(lines: nat, line: usize, radius: usize) -> int {
    if line + radius > lines {
        lines as int
    } else {
        line + radius
    }
}

/// The lines around a line of a source; nothing where the source has no such line.
pub open spec fn snippet(file: Seq<char>, source: Seq<char>, line: usize, radius: usize) -> Option<
    SnippetView,
> {
    let lines = source_lines(source);
    if line == 0 || line > lines.len() {
        None
    } else {
        let start = first_shown(line, radius);
        let end = last_shown(lines.len(), line, radius);
        Some(
            SnippetView {
                file,
                focus_line: line,
                start_line: start as usize,
                end_line: end as usize,
                text: numbered_lines(lines, start, end, line as int),
            },
        )
    }
}

/// Appends a numbered line.
fn append_numbered(out: String, number: usize, focus: usize, line: &str) -> (r: String)
    ensures
        r@ == out@ + numbered(number as int, focus as int, line@),
{
    let mut r = out;
    let number_text = decimal_of(number as u128);
    let len = chars_of(number_text.as_str()).len();
    let missing: usize = if len >= 6 {
        0
    } else {
        6 - len
    };
    proof {
        lemma_right_aligned(number_text@, 6, missing as nat);
        reveal_strlit(">");
        reveal_strlit(" ");
        reveal_strlit("\n");
        reveal_strlit(": ");
    }
    if number == focus {
        r.append(">");
    } else {
        r.append(" ");
    }
    let ghost marked = r@;
    let mut i: usize = 0;
    assert(marked + Seq::new(0, |k: int| ' ') =~= marked);
    while i < missing
        invariant
            i <= missing,
            r@ == marked + Seq::new(i as nat, |k: int| ' '),
        decreases missing - i,
    {
        r.push(' ');
        i = i + 1;
        assert(marked + Seq::new(i as nat, |k: int| ' ') =~= (marked + Seq::new(
            (i - 1) as nat,
            |k: int| ' ',
        )).push(' '));
    }
    r.append(number_text.as_str());
    r.append(": ");
    r.append(line);
    r.append("\n");
    assert(r@ =~= out@ + numbered(number as int, focus as int, line@));
    r
}

/// The lines around a line of a source.
pub fn make_snippet(file: &str, source: &str, line: usize, radius: usize) -> (r: Option<Snippet>)
    ensures
        text::view_opt(r) == snippet(file@, source@, line, radius),
{
    let lines = source_lines_of(source);
    let ghost all = text::views(lines@);
    if line == 0 || line > lines.len() {
        return None;
    }
    let start: usize = if radius >= line {
        1
    } else {
        line - radius
    };
    let end: usize = if radius > lines.len() - line {
        lines.len()
    } else {
        line + radius
    };
    assert(lines.len() == lines@.len());
    let count = end - start + 1;
    let mut out = String::new();
    let mut shown: usize = 0;
    while shown < count
        invariant
            all == text::views(lines@),
            1 <= start <= line <= end <= lines@.len(),
            count == end - start + 1,
            shown <= count,
            out@ == numbered_lines(all, start as int, start + shown - 1, line as int),
        decreases count - shown,
    {
        let current = start + shown;
        out = append_numbered(out, current, line, lines[current - 1].as_str());
        shown = shown + 1;
    }
    Some(
        Snippet {
            file: file.to_owned(),
            focus_line: line,
            start_line: start,
            end_line: end,
            text: out,
        },
    )
}

/// A snippet as a value; null where there is none.
pub open spec fn snippet_value(s: Option<SnippetView>) -> JsonView {
    match s {
        Some(s) => JsonView::Object(
            seq![
                ("file"@, json::text_value(s.file)),
                ("focus_line"@, json::count_value(s.focus_line as nat)),
                ("start_line"@, json::count_value(s.start_line as nat)),
                ("end_line"@, json::count_value(s.end_line as nat)),
                ("text"@, json::text_value(s.text)),
            ],
        ),
        None => JsonView::Null,
    }
}

/// A snippet as a value; null where there is none.
pub fn snippet_json(s: &Option<Snippet>) -> (r: Json)
    ensures
        r@ == snippet_value(text::view_opt(*s)),
{
    match s {
        Some(x) => {
            let r = Fields::new().with("file", Json::text(x.file.as_str())).with(
                "focus_line",
                Json::count(x.focus_line),
            ).with("start_line", Json::count(x.start_line)).with(
                "end_line",
                Json::count(x.end_line),
            ).with("text", Json::text(x.text.as_str())).object();
            assert(r@->Object_0 =~= snippet_value(Some(x@))->Object_0);
            r
        },
        None => Json::Null,
    }
}

/// A snippet shows the line in focus and lies within the source, no further from the focus than
/// the radius.
pub proof fn law_snippet_shows_its_focus(
    file: Seq<char>,
    source: Seq<char>,
    line: usize,
    radius: usize,
)
    requires
        source_lines(source).len() <= usize::MAX,
    ensures
        match snippet(file, source, line, radius) {
            Some(s) => {
                &&& 1 <= s.start_line <= s.focus_line <= s.end_line <= source_lines(source).len()
                &&& s.focus_line == line
                &&& line - s.start_line <= radius
                &&& s.end_line - line <= radius
            },
            None => line == 0 || line > source_lines(source).len(),
        },
{
}

/// As many blanks as a number says.
pub open spec fn blanks(n: nat) -> Seq<char> {
    Seq::new(n, |i: int| ' ')
}

/// How a line is shown: with a mark where it is the one in focus, with its number at the end of six
/// columns or more, and with its text.
pub open spec fn is_shown_as(shown: Seq<char>, number: int, focus: int, line: Seq<char>) -> bool {
    let digits = text::decimal(number as nat);
    exists|n: nat|
        shown == (if number == focus {
            seq!['>']
        } else {
            seq![' ']
        }) + #[trigger] blanks(n) + digits + seq![':', ' '] + line + seq!['\n'] && (if digits.len()
            >= 6 {
            n == 0
        } else {
            n + digits.len() == 6
        })
}

/// A numbered line is shown as it should be.
proof fn lemma_numbered(number: int, focus: int, line: Seq<char>)
    ensures
        is_shown_as(numbered(number, focus, line), number, focus, line),
{
    let d = text::decimal(number as nat);
    let n: nat = if d.len() >= 6 {
        0
    } else {
        (6 - d.len()) as nat
    };
    lemma_right_aligned(d, 6, n);
    reveal_strlit(">");
    reveal_strlit(" ");
    reveal_strlit(": ");
    reveal_strlit("\n");
    assert(">"@ =~= seq!['>']);
    assert(" "@ =~= seq![' ']);
    assert(": "@ =~= seq![':', ' ']);
    assert("\n"@ =~= seq!['\n']);
    let mark = if number == focus {
        seq!['>']
    } else {
        seq![' ']
    };
    assert(right_aligned(d, 6) =~= blanks(n) + d);
    assert(mark + (blanks(n) + d) =~= mark + blanks(n) + d);
    assert(numbered(number, focus, line) == mark + blanks(n) + d + seq![':', ' '] + line + seq![
        '\n',
    ]);
}

/// The lines of a range are its numbered lines, one behind the other.
proof fn lemma_numbered_lines(lines: Seq<Seq<char>>, start: int, end: int, focus: int)
    requires
        start <= end + 1,
    ensures
        numbered_lines(lines, start, end, focus) == Seq::new(
            (end - start + 1) as nat,
            |i: int| numbered(start + i, focus, lines[start + i - 1]),
        ).flatten(),
    decreases end - start + 1,
{
    let all = Seq::new(
        (end - start + 1) as nat,
        |i: int| numbered(start + i, focus, lines[start + i - 1]),
    );
    all.lemma_flatten_and_flatten_alt_are_equivalent();
    if start <= end {
        let fewer = Seq::new(
            (end - start) as nat,
            |i: int| numbered(start + i, focus, lines[start + i - 1]),
        );
        lemma_numbered_lines(lines, start, end - 1, focus);
        fewer.lemma_flatten_and_flatten_alt_are_equivalent();
        assert(all.drop_last() =~= fewer);
        assert(all.last() == numbered(end, focus, lines[end - 1]));
    }
}

/// A snippet shows the lines of the source that are no further from the line in focus than the
/// radius: every one of them, each behind the one before it, and none other.
pub proof fn law_snippet_shows_the_lines_around(
    file: Seq<char>,
    source: Seq<char>,
    line: usize,
    radius: usize,
) -> (shown: Seq<Seq<char>>)
    requires
        source_lines(source).len() <= usize::MAX,
        1 <= line <= source_lines(source).len(),
    ensures
        snippet(file, source, line, radius) matches Some(s) && {
            &&& s.file == file
            &&& s.focus_line == line
            &&& 1 <= s.start_line && line - radius <= s.start_line
            &&& s.start_line == 1 || s.start_line == line - radius
            &&& s.end_line <= source_lines(source).len() && s.end_line <= line + radius
            &&& s.end_line == source_lines(source).len() || s.end_line == line + radius
            &&& s.text == shown.flatten()
            &&& shown.len() == s.end_line - s.start_line + 1
            &&& forall|i: int|
                0 <= i < shown.len() ==> is_shown_as(
                    #[trigger] shown[i],
                    s.start_line + i,
                    line as int,
                    source_lines(source)[s.start_line + i - 1],
                )
        },
{
    let lines = source_lines(source);
    let s = snippet(file, source, line, radius)->0;
    let start = s.start_line as int;
    let end = s.end_line as int;
    lemma_numbered_lines(lines, start, end, line as int);
    let shown = Seq::new(
        (end - start + 1) as nat,
        |i: int| numbered(start + i, line as int, lines[start + i - 1]),
    );
    assert forall|i: int| 0 <= i < shown.len() implies is_shown_as(
        #[trigger] shown[i],
        start + i,
        line as int,
        lines[start + i - 1],
    ) by {
        lemma_numbered(start + i, line as int, lines[start + i - 1]);
    }
    shown
}

/// The lines of a source are what stands between its line feeds, each without a carriage return
/// before its line feed; nothing behind the last line feed is no line.
pub proof fn law_source_lines_are_those_of_the_text(source: Seq<char>, i: int)
    requires
        0 <= i < text::lines(source).len(),
    ensures
        ({
            let all = text::lines(source);
            let shown = source_lines(source);
            &&& shown.len() == if all.last().len() == 0 {
                all.len() - 1
            } else {
                all.len() as int
            }
            &&& i < all.len() - 1 && all[i].len() > 0 && all[i].last() == '\r' ==> all[i]
                == shown[i].push('\r')
            &&& i < all.len() - 1 && (all[i].len() == 0 || all[i].last() != '\r') ==> shown[i]
                == all[i]
            &&& i == all.len() - 1 && all[i].len() > 0 ==> shown[i] == all[i]
        }),
{
    let all = text::lines(source);
    if i < all.len() - 1 && all[i].len() > 0 && all[i].last() == '\r' {
        assert(all[i].drop_last().push('\r') =~= all[i]);
    }
}

} // verus!
