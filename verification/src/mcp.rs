//! The messages of the tool server.
use crate::cli;
use crate::json::{Fields, Json, JsonView};
use crate::json;
use crate::json_text::{parse_json, pretty_json};
use crate::json_text;
use crate::text::{chars_of, joined, same, trim};
use crate::text;
use crate::tool_args::run_tool;
use crate::tool_args;
use crate::tools::tools;
use crate::tools;
use vstd::prelude::*;

verus! {

/// The version of the protocol that is spoken where a client names none.
pub const PROTOCOL_VERSION: &'static str = "2024-11-05";

/// The version of the server.
pub const SERVER_VERSION: &'static str = "0.1.0";

/// A reply with a result.
pub open spec fn reply(id: JsonView, result: JsonView) -> JsonView {
    JsonView::Object(
        seq![("jsonrpc"@, json::text_value("2.0"@)), ("id"@, id), ("result"@, result)],
    )
}

/// A reply with an error.
pub open spec fn error_reply(id: JsonView, code: int, message: Seq<char>) -> JsonView {
    JsonView::Object(
        seq![
            ("jsonrpc"@, json::text_value("2.0"@)),
            ("id"@, id),
            (
                "error"@,
                JsonView::Object(
                    seq![
                        ("code"@, json::integer_value(code)),
                        ("message"@, json::text_value(message)),
                    ],
                ),
            ),
        ],
    )
}

/// A reply with a result.
pub fn response(id: Json, result: Json) -> (r: Json)
    ensures
        r@ == reply(id@, result@),
{
    let ghost wanted = reply(id@, result@);
    let r = Fields::new().with("jsonrpc", Json::text("2.0")).with("id", id).with(
        "result",
        result,
    ).object();
    assert(r@->Object_0 =~= wanted->Object_0);
    r
}

/// A reply with an error.
pub fn error_response(id: Json, code: i64, message: &str) -> (r: Json)
    ensures
        r@ == error_reply(id@, code as int, message@),
{
    let ghost wanted = error_reply(id@, code as int, message@);
    let error = Fields::new().with("code", Json::integer(code)).with(
        "message",
        Json::text(message),
    ).object();
    assert(error@->Object_0 =~= wanted->Object_0[2].1->Object_0);
    let r = Fields::new().with("jsonrpc", Json::text("2.0")).with("id", id).with(
        "error",
        error,
    ).object();
    assert(r@->Object_0 =~= wanted->Object_0);
    r
}

/// The reply to a line that is no JSON.
pub fn parse_error(cause: &str) -> (r: Json)
    ensures
        r@ == error_reply(JsonView::Null, -32700, "parse error: "@ + cause@),
{
    error_response(Json::Null, -32700, joined("parse error: ", cause).as_str())
}

/// A list with one piece of text.
pub open spec fn text_content(s: Seq<char>) -> JsonView {
    JsonView::Array(
        seq![
            JsonView::Object(
                seq![("type"@, json::text_value("text"@)), ("text"@, json::text_value(s))],
            ),
        ],
    )
}

/// A list with one piece of text.
fn content(s: &str) -> (r: Json)
    ensures
        r@ == text_content(s@),
{
    let ghost wanted = text_content(s@);
    let piece = Fields::new().with("type", Json::text("text")).with("text", Json::text(s)).object();
    assert(piece@->Object_0 =~= wanted->Array_0[0]->Object_0);
    let mut v: Vec<Json> = Vec::new();
    v.push(piece);
    let r = Json::array(v);
    assert(r@->Array_0 =~= wanted->Array_0);
    r
}

/// The result of a tool that went well: its value, and the value written out.
pub open spec fn success(value: JsonView, written: Seq<char>) -> JsonView {
    JsonView::Object(
        seq![
            ("content"@, text_content(written)),
            ("structuredContent"@, value),
            ("isError"@, JsonView::Bool(false)),
        ],
    )
}

/// The result of a tool that failed.
pub open spec fn failure(message: Seq<char>) -> JsonView {
    JsonView::Object(
        seq![("content"@, text_content(message)), ("isError"@, JsonView::Bool(true))],
    )
}

/// The result of a tool that went well.
pub fn tool_success(value: Json, written: &str) -> (r: Json)
    ensures
        r@ == success(value@, written@),
{
    let ghost wanted = success(value@, written@);
    let r = Fields::new().with("content", content(written)).with(
        "structuredContent",
        value,
    ).with("isError", Json::Bool(false)).object();
    assert(r@->Object_0 =~= wanted->Object_0);
    r
}

/// The result of a tool that failed.
pub fn tool_error(message: &str) -> (r: Json)
    ensures
        r@ == failure(message@),
{
    let r = Fields::new().with("content", content(message)).with(
        "isError",
        Json::Bool(true),
    ).object();
    assert(r@->Object_0 =~= failure(message@)->Object_0);
    r
}

/// What the server says of itself.
pub open spec fn introduction(params: Option<JsonView>) -> JsonView {
    let named = match params {
        Some(p) => match json::member(p, "protocolVersion"@) {
            Some(JsonView::Str(s)) => Some(s),
            _ => None,
        },
        None => None,
    };
    JsonView::Object(
        seq![
            (
                "protocolVersion"@,
                json::text_value(
                    match named {
                        Some(s) => s,
                        None => PROTOCOL_VERSION@,
                    },
                ),
            ),
            (
                "capabilities"@,
                JsonView::Object(seq![("tools"@, JsonView::Object(Seq::empty()))]),
            ),
            (
                "serverInfo"@,
                JsonView::Object(
                    seq![
                        ("name"@, json::text_value("xref-indexer"@)),
                        ("version"@, json::text_value(SERVER_VERSION@)),
                    ],
                ),
            ),
        ],
    )
}

/// The view of an optional value.
pub open spec fn opt_json(j: Option<&Json>) -> Option<JsonView> {
    match j {
        Some(j) => Some(j@),
        None => None,
    }
}

/// What the server says of itself.
pub fn initialize_result(params: Option<&Json>) -> (r: Json)
    ensures
        r@ == introduction(opt_json(params)),
{
    let mut version = PROTOCOL_VERSION;
    if let Some(p) = params {
        if let Some(value) = p.get("protocolVersion") {
            if let Some(s) = value.as_str() {
                version = s;
            }
        }
    }
    let ghost wanted = introduction(opt_json(params))->Object_0;
    let tools = Fields::new().object();
    let capabilities = Fields::new().with("tools", tools).object();
    let server = Fields::new().with("name", Json::text("xref-indexer")).with(
        "version",
        Json::text(SERVER_VERSION),
    ).object();
    proof {
        assert(tools@->Object_0 =~= Seq::empty());
        assert(capabilities@->Object_0 =~= wanted[1].1->Object_0);
        assert(server@->Object_0 =~= wanted[2].1->Object_0);
    }
    let r = Fields::new().with("protocolVersion", Json::text(version)).with(
        "capabilities",
        capabilities,
    ).with("serverInfo", server).object();
    assert(r@->Object_0 =~= wanted);
    r
}

/// An object with one list that has no entries.
pub open spec fn empty_list(name: Seq<char>) -> JsonView {
    JsonView::Object(seq![(name, JsonView::Array(Seq::empty()))])
}

/// An object with one list.
fn one_list(name: &str, entries: Vec<Json>) -> (r: Json)
    ensures
        r@ == JsonView::Object(seq![(name@, JsonView::Array(text::views(entries@)))]),
{
    let ghost wanted = seq![(name@, JsonView::Array(text::views(entries@)))];
    let r = Fields::new().with(name, Json::array(entries)).object();
    assert(r@->Object_0 =~= wanted);
    r
}

/// What a message asks the server to do.
pub enum Action {
    /// Nothing: no reply is sent.
    Silent,
    /// To reply.
    Reply(Json),
    /// To run a command and reply with its outcome.
    Run { id: Json, argv: Vec<String> },
}

/// What a message asks the server to do.
pub enum ActionView {
    Silent,
    Reply(JsonView),
    Run { id: JsonView, argv: Seq<Seq<char>> },
}

impl View for Action {
    type V = ActionView;

    open spec fn view(&self) -> ActionView {
        match self {
            Action::Silent => ActionView::Silent,
            Action::Reply(j) => ActionView::Reply(j@),
            Action::Run { id, argv } => ActionView::Run { id: id@, argv: text::views(argv@) },
        }
    }
}

/// What a call of a tool asks for.
pub open spec fn tool_call(id: JsonView, params: Option<JsonView>) -> ActionView {
    match params {
        None => ActionView::Reply(reply(id, failure("tools/call missing params"@))),
        Some(p) => match json::member(p, "name"@) {
            Some(JsonView::Str(name)) => {
                let arguments = match json::member(p, "arguments"@) {
                    Some(a) => a,
                    None => JsonView::Null,
                };
                match tool_args::tool_argv(name, arguments) {
                    Ok(argv) => ActionView::Run { id, argv },
                    Err(e) => ActionView::Reply(reply(id, failure(e))),
                }
            },
            _ => ActionView::Reply(reply(id, failure("tools/call missing tool name"@))),
        },
    }
}

/// What a message asks for. A message without an id is never answered.
pub open spec fn action(message: JsonView) -> ActionView {
    let params = json::member(message, "params"@);
    match json::member(message, "id"@) {
        None => ActionView::Silent,
        Some(id) => match json::member(message, "method"@) {
            Some(JsonView::Str(method)) => {
                if method == "initialize"@ {
                    ActionView::Reply(reply(id, introduction(params)))
                } else if method == "notifications/initialized"@ || method
                    == "notifications/cancelled"@ {
                    ActionView::Silent
                } else if method == "ping"@ {
                    ActionView::Reply(reply(id, JsonView::Object(Seq::empty())))
                } else if method == "tools/list"@ {
                    ActionView::Reply(
                        reply(
                            id,
                            JsonView::Object(
                                seq![("tools"@, JsonView::Array(tools::all_tools()))],
                            ),
                        ),
                    )
                } else if method == "tools/call"@ {
                    tool_call(id, params)
                } else if method == "resources/list"@ {
                    ActionView::Reply(reply(id, empty_list("resources"@)))
                } else if method == "prompts/list"@ {
                    ActionView::Reply(reply(id, empty_list("prompts"@)))
                } else {
                    ActionView::Reply(
                        error_reply(id, -32601, "unknown method '"@ + method + "'"@),
                    )
                }
            },
            _ => ActionView::Reply(error_reply(id, -32600, "missing method"@)),
        },
    }
}

/// What a call of a tool asks for.
fn call_tool(id: Json, params: Option<&Json>) -> (r: Action)
    ensures
        r@ == tool_call(id@, opt_json(params)),
{
    let p = match params {
        Some(p) => p,
        None => {
            return Action::Reply(response(id, tool_error("tools/call missing params")));
        },
    };
    let mut named: Option<&str> = None;
    if let Some(value) = p.get("name") {
        named = value.as_str();
    }
    match named {
        Some(name) => {
            let none = Json::Null;
            let arguments = match p.get("arguments") {
                Some(a) => a,
                None => &none,
            };
            match run_tool(name, arguments) {
                Ok(argv) => Action::Run { id, argv },
                Err(e) => Action::Reply(response(id, tool_error(e.as_str()))),
            }
        },
        None => Action::Reply(response(id, tool_error("tools/call missing tool name"))),
    }
}

/// What a message asks for.
pub fn handle_message(message: &Json) -> (r: Action)
    ensures
        r@ == action(message@),
{
    let id = match message.get("id") {
        Some(id) => id.copy(),
        None => {
            return Action::Silent;
        },
    };
    let mut method: Option<&str> = None;
    if let Some(value) = message.get("method") {
        method = value.as_str();
    }
    let method = match method {
        Some(m) => m,
        None => {
            return Action::Reply(error_response(id, -32600, "missing method"));
        },
    };
    let params = message.get("params");
    if same(method, "initialize") {
        Action::Reply(response(id, initialize_result(params)))
    } else if same(method, "notifications/initialized") || same(
        method,
        "notifications/cancelled",
    ) {
        Action::Silent
    } else if same(method, "ping") {
        let pong = Fields::new().object();
        assert(pong@->Object_0 =~= Seq::empty());
        Action::Reply(response(id, pong))
    } else if same(method, "tools/list") {
        Action::Reply(response(id, one_list("tools", tools())))
    } else if same(method, "tools/call") {
        call_tool(id, params)
    } else if same(method, "resources/list") {
        let entries: Vec<Json> = Vec::new();
        assert(text::views(entries@) =~= Seq::empty());
        Action::Reply(response(id, one_list("resources", entries)))
    } else if same(method, "prompts/list") {
        let entries: Vec<Json> = Vec::new();
        assert(text::views(entries@) =~= Seq::empty());
        Action::Reply(response(id, one_list("prompts", entries)))
    } else {
        let start = joined("unknown method '", method);
        Action::Reply(error_response(id, -32601, joined(start.as_str(), "'").as_str()))
    }
}

/// What a line asks the server to do.
pub enum Line {
    /// Nothing: the line is blank.
    Blank,
    /// What its message asks for.
    One(Action),
    /// What its messages ask for, one after the other.
    Batch(Vec<Action>),
}

/// What a line asks the server to do.
pub enum LineView {
    Blank,
    One(ActionView),
    Batch(Seq<ActionView>),
}

impl View for Line {
    type V = LineView;

    open spec fn view(&self) -> LineView {
        match self {
            Line::Blank => LineView::Blank,
            Line::One(a) => LineView::One(a@),
            Line::Batch(v) => LineView::Batch(text::views(v@)),
        }
    }
}

/// What a line asks for that reads as a value, as several, or as no JSON at all: the last is
/// answered with an error.
pub open spec fn line_action(parsed: Result<JsonView, Seq<char>>) -> LineView {
    match parsed {
        Ok(JsonView::Array(messages)) => LineView::Batch(
            messages.map_values(|m: JsonView| action(m)),
        ),
        Ok(message) => LineView::One(action(message)),
        Err(cause) => LineView::One(
            ActionView::Reply(error_reply(JsonView::Null, -32700, "parse error: "@ + cause)),
        ),
    }
}

/// What a line asks for that reads as given.
pub fn handle_parsed(parsed: Result<Json, String>) -> (r: Line)
    ensures
        r@ == line_action(
            match parsed {
                Ok(j) => Ok(j@),
                Err(e) => Err(e@),
            },
        ),
{
    match parsed {
        Ok(Json::Array(messages)) => {
            let ghost all = Json::Array(messages)@->Array_0;
            let mut actions: Vec<Action> = Vec::new();
            let mut i: usize = 0;
            while i < messages.len()
                invariant
                    all == Json::Array(messages)@->Array_0,
                    all.len() == messages@.len(),
                    i <= messages@.len(),
                    actions@.len() == i,
                    forall|k: int| 0 <= k < i ==> (#[trigger] actions@[k])@ == action(all[k]),
                decreases messages@.len() - i,
            {
                assert(all[i as int] == messages@[i as int]@);
                actions.push(handle_message(&messages[i]));
                i = i + 1;
            }
            assert(text::views(actions@) =~= all.map_values(|m: JsonView| action(m)));
            Line::Batch(actions)
        },
        Ok(message) => Line::One(handle_message(&message)),
        Err(cause) => Line::One(Action::Reply(parse_error(cause.as_str()))),
    }
}

/// What a line asks the server to do.
pub fn handle_line(line: &str) -> (r: Line)
    ensures
        r@ == if text::trimmed(line@).len() == 0 {
            LineView::Blank
        } else {
            line_action(json_text::json_parse(line@))
        },
{
    if is_blank(line) {
        Line::Blank
    } else {
        handle_parsed(parse_json(line))
    }
}

/// Whether a text holds nothing but white space.
fn is_blank(s: &str) -> (r: bool)
    ensures
        r == (text::trimmed(s@).len() == 0),
{
    let rest = trim(s);
    let chars = chars_of(rest.as_str());
    chars.len() == 0
}

/// The reply with the outcome of a command: its answer, and the answer written out; or why it
/// failed.
pub fn tool_reply(id: Json, outcome: Result<Json, String>) -> (r: Json)
    ensures
        match outcome {
            Ok(value) => exists|written: Seq<char>| #[trigger]
                json_text::is_pretty(written, value@) && r@ == reply(
                    id@,
                    success(value@, written),
                ),
            Err(e) => r@ == reply(id@, failure(e@)),
        },
{
    match outcome {
        Ok(value) => {
            let written = pretty_json(&value);
            assert(json_text::is_pretty(written@, value@));
            response(id, tool_success(value, written.as_str()))
        },
        Err(e) => response(id, tool_error(e.as_str())),
    }
}

/// The reply to several messages at once: none where none of them is answered.
pub fn batch_reply(replies: Vec<Json>) -> (r: Option<Json>)
    ensures
        match r {
            Some(j) => replies@.len() > 0 && j@ == JsonView::Array(text::views(replies@)),
            None => replies@.len() == 0,
        },
{
    if replies.len() == 0 {
        None
    } else {
        Some(Json::array(replies))
    }
}

/// Whether a list of arguments starts with a word.
spec fn starts(argv: Seq<Seq<char>>, word: Seq<char>) -> bool {
    argv.len() > 0 && argv[0] == word
}

/// Options do not change the word that a list of arguments starts with.
proof fn lemma_options(argv: Seq<Seq<char>>, args: JsonView, word: Seq<char>)
    requires
        starts(argv, word),
    ensures
        tool_args::with_query_options(argv, args) matches Ok(a) ==> starts(a, word),
{
}

/// A query for a symbol starts with its command.
proof fn lemma_symbol(command: Seq<char>, args: JsonView, keys: Seq<Seq<char>>)
    ensures
        tool_args::symbol_argv(command, args, keys) matches Ok(a) ==> starts(a, command),
{
    if let Some(s) = tool_args::text_under(args, keys) {
        lemma_options(seq![command, s], args, command);
    }
}

/// The tools that index start with their commands.
proof fn lemma_index(args: JsonView, incremental: bool)
    ensures
        tool_args::index_argv(args, incremental) matches Ok(a) ==> starts(
            a,
            if incremental {
                "reindex"@
            } else {
                "index"@
            },
        ),
{
}

/// The tool for source lines starts with its command.
proof fn lemma_context(args: JsonView)
    ensures
        tool_args::context_argv(args) matches Ok(a) ==> starts(a, "context"@),
{
}

/// The tool that walks the call graph starts with its command.
proof fn lemma_expand(args: JsonView)
    ensures
        tool_args::expand_argv(args) matches Ok(a) ==> starts(a, "expand"@),
{
    if let Some(s) = tool_args::text_under(args, seq!["symbol"@, "name"@, "query"@, "seed"@]) {
        lemma_options(seq!["expand"@, s], args, "expand"@);
    }
}

/// The tool that runs queries starts with its command.
proof fn lemma_sql(args: JsonView)
    ensures
        tool_args::sql_argv(args) matches Ok(a) ==> starts(a, "sql"@),
{
    if let Some(s) = tool_args::text_under(args, seq!["sql"@, "query"@]) {
        lemma_options(seq!["sql"@, "--sql"@, s], args, "sql"@);
    }
}

/// The words that command lines of tools start with.
spec fn is_tool_command(word: Seq<char>) -> bool {
    word == "index"@ || word == "reindex"@ || word == "stats"@ || word == "find"@ || word
        == "search"@ || word == "refs"@ || word == "callers"@ || word == "callees"@ || word
        == "hierarchy"@ || word == "context"@ || word == "expand"@ || word == "sql"@
}

/// Every command line that a tool stands for begins with the name of a command.
pub proof fn law_tools_run_known_commands(name: Seq<char>, args: JsonView)
    ensures
        tool_args::tool_argv(name, args) matches Ok(argv) ==> argv.len() > 0 && cli::command_of(
            argv[0],
        ) is Ok,
{
    lemma_starts_with_command(name, args);
    if let Ok(argv) = tool_args::tool_argv(name, args) {
        assert(cli::command_of(argv[0]) is Ok);
    }
}

/// Every command line that a tool stands for begins with one of the words.
proof fn lemma_starts_with_command(name: Seq<char>, args: JsonView)
    ensures
        tool_args::tool_argv(name, args) matches Ok(argv) ==> argv.len() > 0 && is_tool_command(
            argv[0],
        ),
{
    let keys = tool_args::symbol_keys();
    lemma_index(args, false);
    lemma_index(args, true);
    lemma_options(seq!["stats"@], args, "stats"@);
    lemma_symbol("find"@, args, keys);
    lemma_symbol("search"@, args, seq!["pattern"@, "query"@, "symbol"@, "name"@]);
    lemma_symbol("refs"@, args, keys);
    lemma_symbol("callers"@, args, keys);
    lemma_symbol("callees"@, args, keys);
    lemma_symbol("hierarchy"@, args, seq!["class"@, "symbol"@, "name"@, "query"@]);
    lemma_context(args);
    lemma_expand(args);
    lemma_sql(args);
}

/// The id of a reply.
proof fn lemma_reply_id(id: JsonView, result: JsonView, code: int, message: Seq<char>)
    ensures
        json::member(reply(id, result), "id"@) == Some(id),
        json::member(error_reply(id, code, message), "id"@) == Some(id),
{
    reveal_strlit("id");
    reveal_strlit("result");
    reveal_strlit("error");
    let a = reply(id, result)->Object_0;
    let b = error_reply(id, code, message)->Object_0;
    assert("id"@.len() == 2 && "result"@.len() == 6 && "error"@.len() == 5);
    assert(a.last().0 == "result"@ && a.drop_last().last() == ("id"@, id));
    assert(b.last().0 == "error"@ && b.drop_last().last() == ("id"@, id));
    assert(json::member_at(a.drop_last(), "id"@) == Some(1int));
    assert(json::member_at(b.drop_last(), "id"@) == Some(1int));
}

/// A message without an id is not answered, and every answer carries the id of its message.
pub proof fn law_replies_carry_the_id(message: JsonView)
    ensures
        match (json::member(message, "id"@), action(message)) {
            (None, a) => a is Silent,
            (Some(id), ActionView::Reply(j)) => json::member(j, "id"@) == Some(id),
            (Some(id), ActionView::Run { id: i, argv }) => i == id,
            (Some(_), ActionView::Silent) => true,
        },
{
    if let Some(id) = json::member(message, "id"@) {
        assert forall|result: JsonView| json::member(#[trigger] reply(id, result), "id"@) == Some(
            id,
        ) by {
            lemma_reply_id(id, result, 0, Seq::empty());
        }
        assert forall|code: int, m: Seq<char>|
            json::member(#[trigger] error_reply(id, code, m), "id"@) == Some(id) by {
            lemma_reply_id(id, JsonView::Null, code, m);
        }
    }
}

} // verus!
