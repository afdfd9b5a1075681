//! From the arguments of a tool call to those of a command.
use crate::json::{Json, JsonView};
use crate::json;
use crate::text::{decimal_of, join_texts, joined, parse_number, same};
use crate::text;
use vstd::prelude::*;

verus! {

/// The views of keys.
pub open spec fn key_views(keys: Seq<&str>) -> Seq<Seq<char>> {
    keys.map_values(|k: &str| k@)
}

/// The text under the first of the keys that holds one.
pub open spec fn text_under(args: JsonView, keys: Seq<Seq<char>>) -> Option<Seq<char>>
    decreases keys.len(),
{
    if keys.len() == 0 {
        None
    } else {
        match text_under(args, keys.drop_last()) {
            Some(s) => Some(s),
            None => match json::member(args, keys.last()) {
                Some(JsonView::Str(s)) => Some(s),
                _ => None,
            },
        }
    }
}

/// The number that a value stands for: a whole number, or a text that spells one.
pub open spec fn number_of(j: JsonView) -> Option<usize> {
    match j {
        JsonView::Number(s) => match text::number_upto(s, u64::MAX as int) {
            Some(n) => Some((n as u64) as usize),
            None => None,
        },
        JsonView::Str(s) => match text::number_upto(s, usize::MAX as int) {
            Some(n) => Some(n as usize),
            None => None,
        },
        _ => None,
    }
}

/// The number under the first of the keys that holds one.
pub open spec fn number_under(args: JsonView, keys: Seq<Seq<char>>) -> Option<usize>
    decreases keys.len(),
{
    if keys.len() == 0 {
        None
    } else {
        match number_under(args, keys.drop_last()) {
            Some(n) => Some(n),
            None => match json::member(args, keys.last()) {
                Some(j) => number_of(j),
                None => None,
            },
        }
    }
}

/// The truth value under a key: where the key is missing the default, where it holds neither a
/// truth value nor a text none.
pub open spec fn truth_under(args: JsonView, key: Seq<char>, default: bool) -> Option<bool> {
    match json::member(args, key) {
        Some(JsonView::Bool(b)) => Some(b),
        Some(JsonView::Str(s)) => Some(s != "false"@ && s != "0"@),
        Some(_) => None,
        None => Some(default),
    }
}

/// The text under the first of the keys that holds one.
fn optional_string(args: &Json, keys: &Vec<&str>) -> (r: Option<String>)
    ensures
        text::view_opt(r) == text_under(args@, key_views(keys@)),
{
    let ghost all = key_views(keys@);
    let mut i: usize = 0;
    while i < keys.len()
        invariant
            all == key_views(keys@),
            i <= keys@.len(),
            text_under(args@, all.take(i as int)) is None,
        decreases keys@.len() - i,
    {
        proof {
            assert(all.take(i + 1).drop_last() =~= all.take(i as int));
            assert(all.take(i + 1).last() == keys@[i as int]@);
        }
        if let Some(value) = args.get(keys[i]) {
            if let Some(s) = value.as_str() {
                let s = s.to_owned();
                proof {
                    lemma_text_found(args@, all, i + 1);
                }
                return Some(s);
            }
        }
        i = i + 1;
    }
    assert(all.take(i as int) =~= all);
    None
}

/// The first text found stays the first.
proof fn lemma_text_found(args: JsonView, keys: Seq<Seq<char>>, n: int)
    requires
        0 <= n <= keys.len(),
        text_under(args, keys.take(n)) is Some,
    ensures
        text_under(args, keys) == text_under(args, keys.take(n)),
    decreases keys.len() - n,
{
    if n == keys.len() {
        assert(keys.take(n) =~= keys);
    } else {
        assert(keys.take(n + 1).drop_last() =~= keys.take(n));
        lemma_text_found(args, keys, n + 1);
    }
}

/// The first number found stays the first.
proof fn lemma_number_found(args: JsonView, keys: Seq<Seq<char>>, n: int)
    requires
        0 <= n <= keys.len(),
        number_under(args, keys.take(n)) is Some,
    ensures
        number_under(args, keys) == number_under(args, keys.take(n)),
    decreases keys.len() - n,
{
    if n == keys.len() {
        assert(keys.take(n) =~= keys);
    } else {
        assert(keys.take(n + 1).drop_last() =~= keys.take(n));
        lemma_number_found(args, keys, n + 1);
    }
}

/// The number that a value stands for.
fn usize_value(j: &Json) -> (r: Option<usize>)
    ensures
        r == number_of(j@),
{
    match j {
        Json::Number(s) => match parse_number(s.as_str(), u64::MAX) {
            Some(n) => Some(n as usize),
            None => None,
        },
        Json::Str(s) => match parse_number(s.as_str(), usize::MAX as u64) {
            Some(n) => Some(n as usize),
            None => None,
        },
        _ => None,
    }
}

/// The number under the first of the keys that holds one.
fn optional_usize(args: &Json, keys: &Vec<&str>) -> (r: Option<usize>)
    ensures
        r == number_under(args@, key_views(keys@)),
{
    let ghost all = key_views(keys@);
    let mut i: usize = 0;
    while i < keys.len()
        invariant
            all == key_views(keys@),
            i <= keys@.len(),
            number_under(args@, all.take(i as int)) is None,
        decreases keys@.len() - i,
    {
        proof {
            assert(all.take(i + 1).drop_last() =~= all.take(i as int));
            assert(all.take(i + 1).last() == keys@[i as int]@);
        }
        if let Some(value) = args.get(keys[i]) {
            if let Some(n) = usize_value(value) {
                proof {
                    lemma_number_found(args@, all, i + 1);
                }
                return Some(n);
            }
        }
        i = i + 1;
    }
    assert(all.take(i as int) =~= all);
    None
}

/// The truth value under a key.
fn bool_arg(args: &Json, key: &str, default: bool) -> (r: Option<bool>)
    ensures
        r == truth_under(args@, key@, default),
{
    match args.get(key) {
        Some(value) => match value {
            Json::Bool(b) => Some(*b),
            Json::Str(s) => Some(!same(s.as_str(), "false") && !same(s.as_str(), "0")),
            _ => None,
        },
        None => Some(default),
    }
}

/// The message for a text or number that is missing under some keys.
pub open spec fn missing(keys: Seq<Seq<char>>) -> Seq<char> {
    "missing required "@ + text::join(keys, "/"@)
}

/// Copies keys.
fn owned_keys(keys: &Vec<&str>) -> (r: Vec<String>)
    ensures
        text::views(r@) == key_views(keys@),
{
    let mut r: Vec<String> = Vec::new();
    let mut i: usize = 0;
    while i < keys.len()
        invariant
            i <= keys@.len(),
            r@.len() == i,
            forall|k: int| 0 <= k < i ==> (#[trigger] r@[k])@ == keys@[k]@,
        decreases keys@.len() - i,
    {
        r.push(keys[i].to_owned());
        i = i + 1;
    }
    assert(text::views(r@) =~= key_views(keys@));
    r
}

/// The message for a text or number that is missing under some keys.
fn missing_message(keys: &Vec<&str>) -> (r: String)
    ensures
        r@ == missing(key_views(keys@)),
{
    joined("missing required ", join_texts(&owned_keys(keys), "/").as_str())
}

/// The text under the first of the keys that holds one: an error where none does.
fn required_string(args: &Json, keys: &Vec<&str>) -> (r: Result<String, String>)
    ensures
        match (r, text_under(args@, key_views(keys@))) {
            (Ok(s), Some(t)) => s@ == t,
            (Err(e), None) => e@ == missing(key_views(keys@)),
            _ => false,
        },
{
    match optional_string(args, keys) {
        Some(s) => Ok(s),
        None => Err(missing_message(keys)),
    }
}

/// The texts of a list, or none where it holds anything else.
pub open spec fn all_texts(items: Seq<JsonView>) -> Option<Seq<Seq<char>>>
    decreases items.len(),
{
    if items.len() == 0 {
        Some(Seq::empty())
    } else {
        match (all_texts(items.drop_last()), items.last()) {
            (Some(before), JsonView::Str(s)) => Some(before.push(s)),
            _ => None,
        }
    }
}

/// The roots that arguments name: a single one, then a list or another single one.
pub open spec fn roots_under(args: JsonView, required: bool) -> Result<Seq<Seq<char>>, Seq<char>> {
    let single = match text_under(args, seq!["root"@, "path"@]) {
        Some(s) => seq![s],
        None => Seq::empty(),
    };
    let listed = match json::member(args, "roots"@) {
        Some(j) => Some(j),
        None => json::member(args, "paths"@),
    };
    let all = match listed {
        Some(JsonView::Array(items)) => match all_texts(items) {
            Some(texts) => Ok(single + texts),
            None => Err("roots must contain strings"@),
        },
        Some(JsonView::Str(s)) => Ok(single.push(s)),
        Some(_) => Err("roots must be a string or array of strings"@),
        None => Ok(single),
    };
    match all {
        Ok(roots) => if required && roots.len() == 0 {
            Err("missing required roots array"@)
        } else {
            Ok(roots)
        },
        Err(e) => Err(e),
    }
}

/// Whether a result shows texts or a message.
pub open spec fn shows_texts(
    r: Result<Vec<String>, String>,
    wanted: Result<Seq<Seq<char>>, Seq<char>>,
) -> bool {
    match (r, wanted) {
        (Ok(v), Ok(w)) => text::views(v@) == w,
        (Err(e), Err(m)) => e@ == m,
        _ => false,
    }
}

/// A value that is no text ends a list of texts.
proof fn lemma_not_all_texts(items: Seq<JsonView>, n: int)
    requires
        0 <= n <= items.len(),
        all_texts(items.take(n)) is None,
    ensures
        all_texts(items) is None,
    decreases items.len() - n,
{
    if n == items.len() {
        assert(items.take(n) =~= items);
    } else {
        assert(items.take(n + 1).drop_last() =~= items.take(n));
        lemma_not_all_texts(items, n + 1);
    }
}

/// Appends the texts of a list: an error where it holds anything else.
fn append_texts(roots: Vec<String>, items: &Vec<Json>) -> (r: Option<Vec<String>>)
    ensures
        match (r, all_texts(text::views(items@))) {
            (Some(v), Some(texts)) => text::views(v@) == text::views(roots@) + texts,
            (None, None) => true,
            _ => false,
        },
{
    let ghost all = text::views(items@);
    let ghost before = text::views(roots@);
    let mut out = roots;
    let mut i: usize = 0;
    proof {
        assert(all.take(0) =~= Seq::empty());
        assert(before + Seq::<Seq<char>>::empty() =~= before);
    }
    while i < items.len()
        invariant
            all == text::views(items@),
            i <= items@.len(),
            all_texts(all.take(i as int)) matches Some(texts) && text::views(out@) == before
                + texts,
        decreases items@.len() - i,
    {
        proof {
            assert(all.take(i + 1).drop_last() =~= all.take(i as int));
            assert(all.take(i + 1).last() == items@[i as int]@);
        }
        match items[i].as_str() {
            Some(s) => {
                let copy = s.to_owned();
                proof {
                    text::lemma_views_push(out@, copy);
                    let texts = all_texts(all.take(i as int))->0;
                    assert(before + texts.push(s@) =~= (before + texts).push(s@));
                }
                out.push(copy);
            },
            None => {
                proof {
                    lemma_not_all_texts(all, i + 1);
                }
                return None;
            },
        }
        i = i + 1;
    }
    assert(all.take(i as int) =~= all);
    Some(out)
}

/// The roots that arguments name.
fn roots_arg(args: &Json, required: bool) -> (r: Result<Vec<String>, String>)
    ensures
        shows_texts(r, roots_under(args@, required)),
{
    let mut roots: Vec<String> = Vec::new();
    let keys = vec!["root", "path"];
    assert(key_views(keys@) =~= seq!["root"@, "path"@]);
    proof {
        assert(text::views(roots@) =~= Seq::empty());
    }
    if let Some(root) = optional_string(args, &keys) {
        proof {
            text::lemma_views_push(roots@, root);
            assert(Seq::<Seq<char>>::empty().push(root@) =~= seq![root@]);
        }
        roots.push(root);
    }
    let listed = match args.get("roots") {
        Some(j) => Some(j),
        None => args.get("paths"),
    };
    if let Some(value) = listed {
        match value {
            Json::Array(items) => {
                assert(value@->Array_0 =~= text::views(items@));
                match append_texts(roots, items) {
                    Some(v) => {
                        roots = v;
                    },
                    None => {
                        return Err("roots must contain strings".to_owned());
                    },
                }
            },
            Json::Str(s) => {
                let copy = s.clone();
                proof {
                    text::lemma_views_push(roots@, copy);
                }
                roots.push(copy);
            },
            _ => {
                return Err("roots must be a string or array of strings".to_owned());
            },
        }
    }
    assert(text::views(roots@).len() == roots@.len());
    if required && roots.len() == 0 {
        return Err("missing required roots array".to_owned());
    }
    Ok(roots)
}

/// An option for each value.
pub open spec fn repeated(flag: Seq<char>, values: Seq<Seq<char>>) -> Seq<Seq<char>>
    decreases values.len(),
{
    if values.len() == 0 {
        Seq::empty()
    } else {
        repeated(flag, values.drop_last()).push(flag).push(values.last())
    }
}

/// With an option for the text under some keys, where there is one.
pub open spec fn with_text(
    argv: Seq<Seq<char>>,
    args: JsonView,
    flag: Seq<char>,
    keys: Seq<Seq<char>>,
) -> Seq<Seq<char>> {
    match text_under(args, keys) {
        Some(s) => argv.push(flag).push(s),
        None => argv,
    }
}

/// With an option for the number under some keys, where there is one.
pub open spec fn with_number(
    argv: Seq<Seq<char>>,
    args: JsonView,
    flag: Seq<char>,
    keys: Seq<Seq<char>>,
) -> Seq<Seq<char>> {
    match number_under(args, keys) {
        Some(n) => argv.push(flag).push(text::decimal(n as nat)),
        None => argv,
    }
}

/// With a switch where the value under a key is true.
pub open spec fn with_switch(
    argv: Seq<Seq<char>>,
    args: JsonView,
    flag: Seq<char>,
    key: Seq<char>,
) -> Seq<Seq<char>> {
    if truth_under(args, key, false) == Some(true) {
        argv.push(flag)
    } else {
        argv
    }
}

/// The keys of the database.
pub open spec fn db_keys() -> Seq<Seq<char>> {
    seq!["db"@, "database"@]
}

/// The keys of the number of lines around a place.
pub open spec fn context_keys() -> Seq<Seq<char>> {
    seq!["context_lines"@, "context"@, "radius"@]
}

/// With the options that all queries share.
pub open spec fn with_query_options(argv: Seq<Seq<char>>, args: JsonView) -> Result<
    Seq<Seq<char>>,
    Seq<char>,
> {
    match roots_under(args, false) {
        Ok(roots) => {
            let a = with_text(argv, args, "--db"@, db_keys()) + repeated("--root"@, roots);
            let b = with_switch(a, args, "--no-reindex"@, "no_reindex"@);
            let c = with_number(b, args, "--limit"@, seq!["limit"@]);
            let d = with_number(c, args, "--context"@, context_keys());
            Ok(
                if truth_under(args, "snippets"@, true) == Some(false) {
                    d.push("--no-snippets"@)
                } else {
                    d
                },
            )
        },
        Err(e) => Err(e),
    }
}

/// Appends a text.
fn push_text(argv: Vec<String>, s: &str) -> (r: Vec<String>)
    ensures
        text::views(r@) == text::views(argv@).push(s@),
{
    let mut out = argv;
    let copy = s.to_owned();
    proof {
        text::lemma_views_push(out@, copy);
    }
    out.push(copy);
    out
}

/// Appends an option for each value.
fn add_repeated(argv: Vec<String>, flag: &str, values: &Vec<String>) -> (r: Vec<String>)
    ensures
        text::views(r@) == text::views(argv@) + repeated(flag@, text::views(values@)),
{
    let ghost before = text::views(argv@);
    let ghost all = text::views(values@);
    let mut out = argv;
    let mut i: usize = 0;
    proof {
        assert(all.take(0) =~= Seq::empty());
        assert(before + Seq::<Seq<char>>::empty() =~= before);
    }
    while i < values.len()
        invariant
            all == text::views(values@),
            i <= values@.len(),
            text::views(out@) == before + repeated(flag@, all.take(i as int)),
        decreases values@.len() - i,
    {
        let ghost done = repeated(flag@, all.take(i as int));
        out = push_text(out, flag);
        out = push_text(out, values[i].as_str());
        proof {
            assert(all.take(i + 1).drop_last() =~= all.take(i as int));
            assert(all.take(i + 1).last() == values@[i as int]@);
            assert(before + done.push(flag@).push(all[i as int]) =~= (before + done).push(
                flag@,
            ).push(all[i as int]));
        }
        i = i + 1;
    }
    assert(all.take(i as int) =~= all);
    out
}

/// Appends an option for the text under some keys.
fn add_string_flag(argv: Vec<String>, args: &Json, flag: &str, keys: &Vec<&str>) -> (r: Vec<String>)
    ensures
        text::views(r@) == with_text(text::views(argv@), args@, flag@, key_views(keys@)),
{
    match optional_string(args, keys) {
        Some(s) => push_text(push_text(argv, flag), s.as_str()),
        None => argv,
    }
}

/// Appends an option for the number under some keys.
fn add_usize_flag(argv: Vec<String>, args: &Json, flag: &str, keys: &Vec<&str>) -> (r: Vec<String>)
    ensures
        text::views(r@) == with_number(text::views(argv@), args@, flag@, key_views(keys@)),
{
    match optional_usize(args, keys) {
        Some(n) => push_text(push_text(argv, flag), decimal_of(n as u128).as_str()),
        None => argv,
    }
}

/// Appends a switch where the value under a key is true.
fn add_bool_flag(argv: Vec<String>, args: &Json, flag: &str, key: &str) -> (r: Vec<String>)
    ensures
        text::views(r@) == with_switch(text::views(argv@), args@, flag@, key@),
{
    match bool_arg(args, key, false) {
        Some(true) => push_text(argv, flag),
        _ => argv,
    }
}

/// Appends the option for the database.
fn add_db(argv: Vec<String>, args: &Json) -> (r: Vec<String>)
    ensures
        text::views(r@) == with_text(text::views(argv@), args@, "--db"@, db_keys()),
{
    let keys = vec!["db", "database"];
    assert(key_views(keys@) =~= db_keys());
    add_string_flag(argv, args, "--db", &keys)
}

/// Appends the option for the number of lines around a place.
fn add_context(argv: Vec<String>, args: &Json) -> (r: Vec<String>)
    ensures
        text::views(r@) == with_number(text::views(argv@), args@, "--context"@, context_keys()),
{
    let keys = vec!["context_lines", "context", "radius"];
    assert(key_views(keys@) =~= context_keys());
    add_usize_flag(argv, args, "--context", &keys)
}

/// Appends the option for the number of results.
fn add_limit(argv: Vec<String>, args: &Json) -> (r: Vec<String>)
    ensures
        text::views(r@) == with_number(text::views(argv@), args@, "--limit"@, seq!["limit"@]),
{
    let keys = vec!["limit"];
    assert(key_views(keys@) =~= seq!["limit"@]);
    add_usize_flag(argv, args, "--limit", &keys)
}

/// Appends the options that all queries share.
fn add_query_options(argv: Vec<String>, args: &Json) -> (r: Result<Vec<String>, String>)
    ensures
        shows_texts(r, with_query_options(text::views(argv@), args@)),
{
    let roots = match roots_arg(args, false) {
        Ok(v) => v,
        Err(e) => {
            return Err(e);
        },
    };
    let a = add_repeated(add_db(argv, args), "--root", &roots);
    let b = add_bool_flag(a, args, "--no-reindex", "no_reindex");
    let d = add_context(add_limit(b, args), args);
    match bool_arg(args, "snippets", true) {
        Some(false) => Ok(push_text(d, "--no-snippets")),
        _ => Ok(d),
    }
}

/// The arguments of `index` and `reindex`. Where nothing is said about references, none are
/// stored.
pub open spec fn index_argv(args: JsonView, incremental: bool) -> Result<
    Seq<Seq<char>>,
    Seq<char>,
> {
    match roots_under(args, true) {
        Ok(roots) => {
            let start = seq![
                if incremental {
                    "reindex"@
                } else {
                    "index"@
                },
            ];
            let a = with_text(
                start + repeated("--root"@, roots),
                args,
                "--db"@,
                db_keys(),
            );
            let b = with_text(a, args, "--language"@, seq!["language"@, "lang"@]);
            let c = match text_under(args, seq!["references"@, "reference_mode"@]) {
                Some(s) => b.push("--references"@).push(s),
                None => b.push("--references"@).push("none"@),
            };
            let d = with_number(c, args, "--threads"@, seq!["threads"@]);
            let e = with_switch(d, args, "--follow-symlinks"@, "follow_symlinks"@);
            Ok(with_switch(e, args, "--reference-context"@, "reference_context"@))
        },
        Err(e) => Err(e),
    }
}

/// The first argument of a command line.
fn start(command: &str) -> (r: Vec<String>)
    ensures
        text::views(r@) == seq![command@],
{
    let r = push_text(Vec::new(), command);
    assert(text::views(r@) =~= seq![command@]);
    r
}

/// The arguments of `index` and `reindex`.
fn run_index_tool(args: &Json, incremental: bool) -> (r: Result<Vec<String>, String>)
    ensures
        shows_texts(r, index_argv(args@, incremental)),
{
    let roots = match roots_arg(args, true) {
        Ok(v) => v,
        Err(e) => {
            return Err(e);
        },
    };
    let argv = start(
        if incremental {
            "reindex"
        } else {
            "index"
        },
    );
    let a = add_db(add_repeated(argv, "--root", &roots), args);
    let language_keys = vec!["language", "lang"];
    let reference_keys = vec!["references", "reference_mode"];
    let thread_keys = vec!["threads"];
    proof {
        assert(key_views(language_keys@) =~= seq!["language"@, "lang"@]);
        assert(key_views(reference_keys@) =~= seq!["references"@, "reference_mode"@]);
        assert(key_views(thread_keys@) =~= seq!["threads"@]);
    }
    let b = add_string_flag(a, args, "--language", &language_keys);
    let named = push_text(b, "--references");
    let c = match optional_string(args, &reference_keys) {
        Some(s) => push_text(named, s.as_str()),
        None => push_text(named, "none"),
    };
    let d = add_usize_flag(c, args, "--threads", &thread_keys);
    let e = add_bool_flag(d, args, "--follow-symlinks", "follow_symlinks");
    Ok(add_bool_flag(e, args, "--reference-context", "reference_context"))
}

/// The arguments of a query for a symbol.
pub open spec fn symbol_argv(command: Seq<char>, args: JsonView, keys: Seq<Seq<char>>) -> Result<
    Seq<Seq<char>>,
    Seq<char>,
> {
    match text_under(args, keys) {
        Some(symbol) => match with_query_options(seq![command, symbol], args) {
            Ok(argv) => Ok(
                if command == "find"@ {
                    with_switch(argv, args, "--include-search"@, "include_search"@)
                } else {
                    argv
                },
            ),
            Err(e) => Err(e),
        },
        None => Err(missing(keys)),
    }
}

/// The arguments of a query for a symbol.
fn run_symbol_query(command: &str, args: &Json, keys: &Vec<&str>) -> (r: Result<Vec<String>, String>)
    ensures
        shows_texts(r, symbol_argv(command@, args@, key_views(keys@))),
{
    let symbol = match required_string(args, keys) {
        Ok(s) => s,
        Err(e) => {
            return Err(e);
        },
    };
    let argv = push_text(start(command), symbol.as_str());
    assert(text::views(argv@) =~= seq![command@, symbol@]);
    match add_query_options(argv, args) {
        Ok(argv) => if same(command, "find") {
            Ok(add_bool_flag(argv, args, "--include-search", "include_search"))
        } else {
            Ok(argv)
        },
        Err(e) => Err(e),
    }
}

/// The keys of a symbol.
pub open spec fn symbol_keys() -> Seq<Seq<char>> {
    seq!["symbol"@, "name"@, "query"@]
}

/// The arguments of `context`: for a file and a line, or for a symbol.
pub open spec fn context_argv(args: JsonView) -> Result<Seq<Seq<char>>, Seq<char>> {
    let begun = match text_under(args, seq!["file"@, "path"@]) {
        Some(file) => match number_under(args, seq!["line"@]) {
            Some(line) => Ok(
                seq!["context"@, "--file"@, file, "--line"@, text::decimal(line as nat)],
            ),
            None => Err(missing(seq!["line"@])),
        },
        None => match text_under(args, symbol_keys()) {
            Some(symbol) => match roots_under(args, false) {
                Ok(roots) => {
                    let a = with_text(seq!["context"@, symbol], args, "--db"@, db_keys());
                    let b = with_switch(
                        a + repeated("--root"@, roots),
                        args,
                        "--no-reindex"@,
                        "no_reindex"@,
                    );
                    Ok(with_number(b, args, "--limit"@, seq!["limit"@]))
                },
                Err(e) => Err(e),
            },
            None => Err(missing(symbol_keys())),
        },
    };
    match begun {
        Ok(argv) => Ok(with_number(argv, args, "--context"@, context_keys())),
        Err(e) => Err(e),
    }
}

/// The arguments of `context`.
fn run_context_tool(args: &Json) -> (r: Result<Vec<String>, String>)
    ensures
        shows_texts(r, context_argv(args@)),
{
    let file_keys = vec!["file", "path"];
    let line_keys = vec!["line"];
    let keys = vec!["symbol", "name", "query"];
    proof {
        assert(key_views(file_keys@) =~= seq!["file"@, "path"@]);
        assert(key_views(line_keys@) =~= seq!["line"@]);
        assert(key_views(keys@) =~= symbol_keys());
    }
    let argv = start("context");
    let begun = match optional_string(args, &file_keys) {
        Some(file) => match optional_usize(args, &line_keys) {
            Some(line) => {
                let a = push_text(push_text(argv, "--file"), file.as_str());
                let b = push_text(push_text(a, "--line"), decimal_of(line as u128).as_str());
                assert(text::views(b@) =~= seq![
                    "context"@,
                    "--file"@,
                    file@,
                    "--line"@,
                    text::decimal(line as nat),
                ]);
                b
            },
            None => {
                return Err(missing_message(&line_keys));
            },
        },
        None => {
            let symbol = match required_string(args, &keys) {
                Ok(s) => s,
                Err(e) => {
                    return Err(e);
                },
            };
            let roots = match roots_arg(args, false) {
                Ok(v) => v,
                Err(e) => {
                    return Err(e);
                },
            };
            let named = push_text(argv, symbol.as_str());
            assert(text::views(named@) =~= seq!["context"@, symbol@]);
            let a = add_repeated(add_db(named, args), "--root", &roots);
            add_limit(add_bool_flag(a, args, "--no-reindex", "no_reindex"), args)
        },
    };
    Ok(add_context(begun, args))
}

/// The arguments of `expand`.
pub open spec fn expand_argv(args: JsonView) -> Result<Seq<Seq<char>>, Seq<char>> {
    let keys = seq!["symbol"@, "name"@, "query"@, "seed"@];
    match text_under(args, keys) {
        Some(symbol) => match with_query_options(seq!["expand"@, symbol], args) {
            Ok(argv) => Ok(
                with_number(
                    with_text(argv, args, "--direction"@, seq!["direction"@]),
                    args,
                    "--depth"@,
                    seq!["depth"@],
                ),
            ),
            Err(e) => Err(e),
        },
        None => Err(missing(keys)),
    }
}

/// The arguments of `expand`.
fn run_expand_tool(args: &Json) -> (r: Result<Vec<String>, String>)
    ensures
        shows_texts(r, expand_argv(args@)),
{
    let keys = vec!["symbol", "name", "query", "seed"];
    let direction_keys = vec!["direction"];
    let depth_keys = vec!["depth"];
    proof {
        assert(key_views(keys@) =~= seq!["symbol"@, "name"@, "query"@, "seed"@]);
        assert(key_views(direction_keys@) =~= seq!["direction"@]);
        assert(key_views(depth_keys@) =~= seq!["depth"@]);
    }
    let symbol = match required_string(args, &keys) {
        Ok(s) => s,
        Err(e) => {
            return Err(e);
        },
    };
    let argv = push_text(start("expand"), symbol.as_str());
    assert(text::views(argv@) =~= seq!["expand"@, symbol@]);
    match add_query_options(argv, args) {
        Ok(argv) => {
            let a = add_string_flag(argv, args, "--direction", &direction_keys);
            Ok(add_usize_flag(a, args, "--depth", &depth_keys))
        },
        Err(e) => Err(e),
    }
}

/// The arguments of `sql`.
pub open spec fn sql_argv(args: JsonView) -> Result<Seq<Seq<char>>, Seq<char>> {
    let keys = seq!["sql"@, "query"@];
    match text_under(args, keys) {
        Some(sql) => with_query_options(seq!["sql"@, "--sql"@, sql], args),
        None => Err(missing(keys)),
    }
}

/// The arguments of `sql`.
fn run_sql_tool(args: &Json) -> (r: Result<Vec<String>, String>)
    ensures
        shows_texts(r, sql_argv(args@)),
{
    let keys = vec!["sql", "query"];
    assert(key_views(keys@) =~= seq!["sql"@, "query"@]);
    let sql = match required_string(args, &keys) {
        Ok(s) => s,
        Err(e) => {
            return Err(e);
        },
    };
    let argv = push_text(push_text(start("sql"), "--sql"), sql.as_str());
    assert(text::views(argv@) =~= seq!["sql"@, "--sql"@, sql@]);
    add_query_options(argv, args)
}

/// The command line that a tool stands for, or why it cannot be called.
pub open spec fn tool_argv(name: Seq<char>, args: JsonView) -> Result<Seq<Seq<char>>, Seq<char>> {
    if name == "xref_index"@ {
        index_argv(args, false)
    } else if name == "xref_reindex"@ {
        index_argv(args, true)
    } else if name == "xref_stats"@ {
        with_query_options(seq!["stats"@], args)
    } else if name == "xref_find"@ {
        symbol_argv("find"@, args, symbol_keys())
    } else if name == "xref_search"@ {
        symbol_argv("search"@, args, seq!["pattern"@, "query"@, "symbol"@, "name"@])
    } else if name == "xref_refs"@ {
        symbol_argv("refs"@, args, symbol_keys())
    } else if name == "xref_callers"@ {
        symbol_argv("callers"@, args, symbol_keys())
    } else if name == "xref_callees"@ {
        symbol_argv("callees"@, args, symbol_keys())
    } else if name == "xref_hierarchy"@ {
        symbol_argv("hierarchy"@, args, seq!["class"@, "symbol"@, "name"@, "query"@])
    } else if name == "xref_context"@ {
        context_argv(args)
    } else if name == "xref_expand"@ {
        expand_argv(args)
    } else if name == "xref_sql"@ {
        sql_argv(args)
    } else {
        Err("unknown tool '"@ + name + "'"@)
    }
}

/// The command line that a tool stands for.
pub fn run_tool(name: &str, args: &Json) -> (r: Result<Vec<String>, String>)
    ensures
        shows_texts(r, tool_argv(name@, args@)),
{
    let keys = vec!["symbol", "name", "query"];
    assert(key_views(keys@) =~= symbol_keys());
    if same(name, "xref_index") {
        run_index_tool(args, false)
    } else if same(name, "xref_reindex") {
        run_index_tool(args, true)
    } else if same(name, "xref_stats") {
        add_query_options(start("stats"), args)
    } else if same(name, "xref_find") {
        run_symbol_query("find", args, &keys)
    } else if same(name, "xref_search") {
        let pattern_keys = vec!["pattern", "query", "symbol", "name"];
        assert(key_views(pattern_keys@) =~= seq!["pattern"@, "query"@, "symbol"@, "name"@]);
        run_symbol_query("search", args, &pattern_keys)
    } else if same(name, "xref_refs") {
        run_symbol_query("refs", args, &keys)
    } else if same(name, "xref_callers") {
        run_symbol_query("callers", args, &keys)
    } else if same(name, "xref_callees") {
        run_symbol_query("callees", args, &keys)
    } else if same(name, "xref_hierarchy") {
        let class_keys = vec!["class", "symbol", "name", "query"];
        assert(key_views(class_keys@) =~= seq!["class"@, "symbol"@, "name"@, "query"@]);
        run_symbol_query("hierarchy", args, &class_keys)
    } else if same(name, "xref_context") {
        run_context_tool(args)
    } else if same(name, "xref_expand") {
        run_expand_tool(args)
    } else if same(name, "xref_sql") {
        run_sql_tool(args)
    } else {
        let start = joined("unknown tool '", name);
        Err(joined(start.as_str(), "'"))
    }
}

} // verus!
