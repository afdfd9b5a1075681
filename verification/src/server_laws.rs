//! What holds of the servers: how they are started, where their databases lie, and what messages
//! are answered.
use crate::answer_laws::lemma_member;
use crate::argument_laws;
use crate::json::JsonView;
use crate::json;
use crate::mcp::{ActionView, LineView};
use crate::mcp;
use crate::path_laws;
use crate::paths;
use crate::server::{ServerArgsView, read_server_args};
use crate::server;
use crate::text;
use crate::tool_args;
use crate::tools;
use vstd::prelude::*;

verus! {

/// The options of the server set the data directory, the host and the port, each one alone; a port
/// that is none changes nothing, and neither does anything else.
pub proof fn law_server_options_set_one_thing_each(
    args: Seq<Seq<char>>,
    i: int,
    s: ServerArgsView,
    port: u16,
)
    requires
        0 <= i < args.len() - 1,
    ensures
        args[i] == "--data-dir"@ ==> read_server_args(args, i, s) == read_server_args(
            args,
            i + 2,
            ServerArgsView { data_dir: args[i + 1], host: s.host, port: s.port },
        ),
        args[i] == "--host"@ ==> read_server_args(args, i, s) == read_server_args(
            args,
            i + 2,
            ServerArgsView { data_dir: s.data_dir, host: args[i + 1], port: s.port },
        ),
        args[i] == "--port"@ && args[i + 1] == text::decimal(port as nat) ==> read_server_args(
            args,
            i,
            s,
        ) == read_server_args(
            args,
            i + 2,
            ServerArgsView { data_dir: s.data_dir, host: s.host, port },
        ),
        args[i] == "--port"@ && text::number_upto(args[i + 1], u16::MAX as int) is None
            ==> read_server_args(args, i, s) == read_server_args(args, i + 2, s),
        args[i] != "--data-dir"@ && args[i] != "--host"@ && args[i] != "--port"@
            ==> read_server_args(args, i, s) == read_server_args(args, i + 1, s),
{
    reveal_strlit("--data-dir");
    reveal_strlit("--host");
    reveal_strlit("--port");
    assert("--data-dir"@.len() == 10 && "--host"@.len() == 6 && "--port"@.len() == 6);
    assert("--host"@[2] == 'h' && "--port"@[2] == 'p');
    argument_laws::law_numbers_are_read_as_they_are_written(port as nat, u16::MAX as int);
}

/// The last argument of the server sets nothing, as no value follows it.
pub proof fn law_last_argument_of_the_server_sets_nothing(args: Seq<Seq<char>>, s: ServerArgsView)
    requires
        args.len() > 0,
    ensures
        read_server_args(args, args.len() - 1, s) == s,
{
    reveal_with_fuel(read_server_args, 2);
}

/// The file of a database keeps every character of the name but for the slashes.
pub proof fn law_database_files_keep_their_names(data_dir: Seq<char>, name: Seq<char>)
    requires
        path_laws::is_plain(data_dir),
        name.len() > 0,
    ensures
        paths::parent(server::database_file(data_dir, name)) == Some(data_dir),
        paths::file_stem(server::database_file(data_dir, name)) matches Some(stem) && stem.len()
            == name.len() && forall|i: int|
            0 <= i < name.len() ==> #[trigger] stem[i] == if name[i] == '/' {
                '_'
            } else {
                name[i]
            },
        paths::extension(server::database_file(data_dir, name)) == Some(seq!['d', 'b']),
{
    lemma_database_file(data_dir, name);
}

/// The file of a database, cut into its parts.
proof fn lemma_database_file(data_dir: Seq<char>, name: Seq<char>)
    requires
        path_laws::is_plain(data_dir),
        name.len() > 0,
    ensures
        ({
            let file = server::database_file(data_dir, name);
            &&& paths::parent(file) == Some(data_dir)
            &&& paths::file_stem(file) == Some(server::without_slashes(name))
            &&& paths::extension(file) == Some(seq!['d', 'b'])
        }),
{
    reveal_strlit(".db");
    let stem = server::without_slashes(name);
    let end = seq!['d', 'b'];
    let entry = stem + seq!['.'] + end;
    assert(stem + ".db"@ =~= entry);
    assert forall|i: int| 0 <= i < entry.len() implies entry[i] != '/' by {
        if i < stem.len() {
            assert(entry[i] == stem[i]);
        }
    }
    assert(!entry.contains('/'));
    assert(entry.len() > 2);
    assert(!end.contains('.'));
    path_laws::law_extension_stands_behind_the_last_dot(data_dir, stem, end);
    path_laws::law_entries_lie_in_their_directory(data_dir, entry);
}

/// Databases of different names have files of different names, where the names hold no slash.
pub proof fn law_databases_are_told_apart(data_dir: Seq<char>, a: Seq<char>, b: Seq<char>)
    requires
        path_laws::is_plain(data_dir),
        a.len() > 0,
        b.len() > 0,
        !a.contains('/'),
        !b.contains('/'),
        server::database_file(data_dir, a) == server::database_file(data_dir, b),
    ensures
        a == b,
{
    lemma_database_file(data_dir, a);
    lemma_database_file(data_dir, b);
    lemma_without_slashes(a);
    lemma_without_slashes(b);
}

/// A name that holds no slash stays as it is.
proof fn lemma_without_slashes(name: Seq<char>)
    requires
        !name.contains('/'),
    ensures
        server::without_slashes(name) == name,
{
    assert forall|i: int| 0 <= i < name.len() implies server::without_slashes(name)[i]
        == name[i] by {
        assert(name.contains(name[i]));
    }
    assert(server::without_slashes(name) =~= name);
}

/// Every database is listed under its name and with its file.
pub proof fn law_databases_are_listed_by_name(
    data_dir: Seq<char>,
    name: Seq<char>,
    files: Seq<Seq<char>>,
    i: int,
) -> (k: int)
    requires
        path_laws::is_plain(data_dir),
        name.len() > 0,
        !name.contains('/'),
        0 <= i < files.len(),
        files[i] == server::database_file(data_dir, name),
    ensures
        0 <= k < server::listed_all(files).len(),
        json::member(server::listed_all(files)[k], "name"@) == Some(JsonView::Str(name)),
        json::member(server::listed_all(files)[k], "path"@) == Some(JsonView::Str(files[i])),
    decreases files.len(),
{
    if i == files.len() - 1 {
        lemma_database_file(data_dir, name);
        lemma_without_slashes(name);
        reveal_strlit("db");
        reveal_strlit("name");
        reveal_strlit("path");
        assert("db"@ =~= seq!['d', 'b']);
        assert("name"@[0] == 'n' && "path"@[0] == 'p');
        let entry = server::listed(files.last())->0;
        let members = entry->Object_0;
        lemma_member(members, 0);
        lemma_member(members, 1);
        server::listed_all(files).len() - 1
    } else {
        let short = files.drop_last();
        let k = law_databases_are_listed_by_name(data_dir, name, short, i);
        assert(server::listed_all(files)[k] == server::listed_all(short)[k]);
        k
    }
}

/// Nothing but files with the extension of databases is listed.
pub proof fn law_only_databases_are_listed(files: Seq<Seq<char>>, k: int) -> (i: int)
    requires
        0 <= k < server::listed_all(files).len(),
    ensures
        0 <= i < files.len(),
        paths::extension(files[i]) == Some(seq!['d', 'b']),
        json::member(server::listed_all(files)[k], "path"@) == Some(JsonView::Str(files[i])),
    decreases files.len(),
{
    let short = files.drop_last();
    if k < server::listed_all(short).len() {
        let i = law_only_databases_are_listed(short, k);
        assert(server::listed_all(files)[k] == server::listed_all(short)[k]);
        i
    } else {
        reveal_strlit("db");
        assert("db"@ =~= seq!['d', 'b']);
        lemma_member(server::listed(files.last())->0->Object_0, 1);
        files.len() - 1
    }
}

/// The names of the parts of replies are told apart.
proof fn lemma_parts_apart()
    ensures
        "jsonrpc"@.len() == 7,
        "id"@.len() == 2,
        "result"@.len() == 6,
        "error"@.len() == 5,
        "code"@.len() == 4,
        "message"@.len() == 7,
        "content"@.len() == 7,
        "isError"@.len() == 7,
        "content"@ != "isError"@,
        "structuredContent"@.len() == 17,
        "type"@.len() == 4,
        "text"@.len() == 4,
        "type"@ != "text"@,
        "protocolVersion"@.len() == 15,
        "capabilities"@.len() == 12,
        "serverInfo"@.len() == 10,
{
    reveal_strlit("jsonrpc");
    reveal_strlit("id");
    reveal_strlit("result");
    reveal_strlit("error");
    reveal_strlit("code");
    reveal_strlit("message");
    reveal_strlit("content");
    reveal_strlit("isError");
    reveal_strlit("structuredContent");
    reveal_strlit("type");
    reveal_strlit("text");
    reveal_strlit("protocolVersion");
    reveal_strlit("capabilities");
    reveal_strlit("serverInfo");
    assert("content"@[0] == 'c' && "isError"@[0] == 'i');
    assert("type"@[1] == 'y' && "text"@[1] == 'e');
}

/// A reply carries the id of its message and its result or its error, and never both.
pub proof fn law_replies_carry_a_result_or_an_error(
    id: JsonView,
    result: JsonView,
    code: int,
    message: Seq<char>,
)
    ensures
        json::member(mcp::reply(id, result), "id"@) == Some(id),
        json::member(mcp::reply(id, result), "result"@) == Some(result),
        json::member(mcp::reply(id, result), "error"@) is None,
        json::member(mcp::error_reply(id, code, message), "id"@) == Some(id),
        json::member(mcp::error_reply(id, code, message), "result"@) is None,
        json::member(mcp::error_reply(id, code, message), "error"@) matches Some(e) && json::member(
            e,
            "code"@,
        ) == Some(json::integer_value(code)) && json::member(e, "message"@) == Some(
            JsonView::Str(message),
        ),
        json::member(mcp::reply(id, result), "jsonrpc"@) == Some(JsonView::Str("2.0"@)),
        json::member(mcp::error_reply(id, code, message), "jsonrpc"@) == Some(
            JsonView::Str("2.0"@),
        ),
{
    lemma_parts_apart();
    let a = mcp::reply(id, result)->Object_0;
    let b = mcp::error_reply(id, code, message)->Object_0;
    let e = b[2].1->Object_0;
    lemma_member(a, 0);
    lemma_member(a, 1);
    lemma_member(a, 2);
    lemma_member(b, 0);
    lemma_member(b, 1);
    lemma_member(b, 2);
    lemma_member(e, 0);
    lemma_member(e, 1);
    lemma_no_member(a, "error"@);
    lemma_no_member(b, "result"@);
}

/// A name that no member has stands for nothing.
proof fn lemma_no_member(members: Seq<(Seq<char>, JsonView)>, name: Seq<char>)
    requires
        forall|i: int| 0 <= i < members.len() ==> (#[trigger] members[i]).0 != name,
    ensures
        json::member_at(members, name) is None,
    decreases members.len(),
{
    if members.len() > 0 {
        let short = members.drop_last();
        assert(members[members.len() - 1].0 != name);
        assert forall|i: int| 0 <= i < short.len() implies (#[trigger] short[i]).0 != name by {
            assert(short[i] == members[i]);
        }
        lemma_no_member(short, name);
    }
}

/// What a tool gives carries its value and says whether it failed.
pub proof fn law_results_of_tools_say_whether_they_failed(
    value: JsonView,
    written: Seq<char>,
    message: Seq<char>,
)
    ensures
        json::member(mcp::success(value, written), "isError"@) == Some(JsonView::Bool(false)),
        json::member(mcp::success(value, written), "structuredContent"@) == Some(value),
        json::member(mcp::success(value, written), "content"@) matches Some(JsonView::Array(c))
            && c.len() == 1 && json::member(c[0], "text"@) == Some(JsonView::Str(written)),
        json::member(mcp::failure(message), "isError"@) == Some(JsonView::Bool(true)),
        json::member(mcp::failure(message), "content"@) matches Some(JsonView::Array(c)) && c.len()
            == 1 && json::member(c[0], "text"@) == Some(JsonView::Str(message)),
{
    lemma_parts_apart();
    let a = mcp::success(value, written)->Object_0;
    let b = mcp::failure(message)->Object_0;
    lemma_member(a, 0);
    lemma_member(a, 1);
    lemma_member(a, 2);
    lemma_member(b, 0);
    lemma_member(b, 1);
    lemma_member(mcp::text_content(written)->Array_0[0]->Object_0, 1);
    lemma_member(mcp::text_content(message)->Array_0[0]->Object_0, 1);
}

/// The methods are told apart.
proof fn lemma_methods_apart()
    ensures
        "initialize"@.len() == 10,
        "tools/list"@.len() == 10,
        "tools/call"@.len() == 10,
        "initialize"@ != "tools/list"@,
        "initialize"@ != "tools/call"@,
        "tools/list"@ != "tools/call"@,
        "notifications/initialized"@.len() == 25,
        "notifications/cancelled"@.len() == 23,
        "ping"@.len() == 4,
        "resources/list"@.len() == 14,
        "prompts/list"@.len() == 12,
{
    reveal_strlit("initialize");
    reveal_strlit("tools/list");
    reveal_strlit("tools/call");
    reveal_strlit("notifications/initialized");
    reveal_strlit("notifications/cancelled");
    reveal_strlit("ping");
    reveal_strlit("resources/list");
    reveal_strlit("prompts/list");
    assert("initialize"@[0] == 'i' && "tools/list"@[0] == 't' && "tools/call"@[0] == 't');
    assert("tools/list"@[6] == 'l' && "tools/call"@[6] == 'c');
}

/// Whether a message has an id and asks for a method.
pub open spec fn asks(message: JsonView, id: JsonView, method: Seq<char>) -> bool {
    json::member(message, "id"@) == Some(id) && json::member(message, "method"@) == Some(
        JsonView::Str(method),
    )
}

/// Whether a message is answered with a result.
pub open spec fn is_answered(message: JsonView, result: JsonView) -> bool {
    mcp::action(message) matches ActionView::Reply(j) && json::member(j, "result"@) == Some(result)
}

/// Whether a message is answered with an error.
pub open spec fn is_refused(message: JsonView, code: int) -> bool {
    mcp::action(message) matches ActionView::Reply(j) && (json::member(j, "error"@) matches Some(e)
        && json::member(e, "code"@) == Some(json::integer_value(code)))
}

/// A ping is answered with nothing, a greeting with the version that the client speaks, and a
/// request for the tools with all that are offered. Notifications are not answered, and a method
/// that is not known is refused.
pub proof fn law_methods_are_answered(message: JsonView, id: JsonView, method: Seq<char>)
    requires
        asks(message, id, method),
    ensures
        method == "ping"@ ==> is_answered(message, JsonView::Object(Seq::empty())),
        method == "tools/list"@ ==> is_answered(
            message,
            JsonView::Object(seq![("tools"@, JsonView::Array(tools::all_tools()))]),
        ),
        method == "resources/list"@ ==> is_answered(
            message,
            JsonView::Object(seq![("resources"@, JsonView::Array(Seq::empty()))]),
        ),
        method == "prompts/list"@ ==> is_answered(
            message,
            JsonView::Object(seq![("prompts"@, JsonView::Array(Seq::empty()))]),
        ),
        method == "notifications/initialized"@ || method == "notifications/cancelled"@
            ==> mcp::action(message) is Silent,
        !is_method(method) ==> is_refused(message, -32601),
{
    lemma_methods_apart();
    assert forall|result: JsonView|
        json::member(#[trigger] mcp::reply(id, result), "result"@) == Some(result) by {
        law_replies_carry_a_result_or_an_error(id, result, 0, Seq::empty());
    }
    law_replies_carry_a_result_or_an_error(
        id,
        JsonView::Null,
        -32601,
        "unknown method '"@ + method + "'"@,
    );
}

/// The methods that are known.
pub open spec fn is_method(method: Seq<char>) -> bool {
    method == "initialize"@ || method == "notifications/initialized"@ || method
        == "notifications/cancelled"@ || method == "ping"@ || method == "tools/list"@ || method
        == "tools/call"@ || method == "resources/list"@ || method == "prompts/list"@
}

/// A greeting is answered in the version that the client speaks, and in that of the server where it
/// names none.
pub proof fn law_greetings_are_answered_in_the_version_of_the_client(
    message: JsonView,
    id: JsonView,
    version: Seq<char>,
)
    requires
        asks(message, id, "initialize"@),
    ensures
        (json::member(message, "params"@) matches Some(p) && json::member(p, "protocolVersion"@)
            == Some(JsonView::Str(version))) ==> greets_in(message, version),
        json::member(message, "params"@) is None ==> greets_in(message, "2024-11-05"@),
{
    lemma_methods_apart();
    lemma_parts_apart();
    let result = mcp::introduction(json::member(message, "params"@));
    law_replies_carry_a_result_or_an_error(id, result, 0, Seq::empty());
    lemma_member(result->Object_0, 0);
}

/// Whether a message is answered with a greeting in a version.
pub open spec fn greets_in(message: JsonView, version: Seq<char>) -> bool {
    mcp::action(message) matches ActionView::Reply(j) && (json::member(j, "result"@) matches Some(
        r,
    ) && json::member(r, "protocolVersion"@) == Some(JsonView::Str(version)))
}

/// A call of a tool runs the command line that the tool stands for on the arguments it is given, or
/// is answered with what is wrong.
pub proof fn law_calls_of_tools_are_run(
    message: JsonView,
    id: JsonView,
    params: JsonView,
    name: Seq<char>,
    arguments: JsonView,
)
    requires
        asks(message, id, "tools/call"@),
        json::member(message, "params"@) == Some(params),
        json::member(params, "name"@) == Some(JsonView::Str(name)),
        json::member(params, "arguments"@) == Some(arguments) || json::member(
            params,
            "arguments"@,
        ) is None && arguments is Null,
    ensures
        tool_args::tool_argv(name, arguments) matches Ok(argv) ==> mcp::action(message) == (
        ActionView::Run { id, argv }),
        tool_args::tool_argv(name, arguments) matches Err(e) ==> is_answered(
            message,
            mcp::failure(e),
        ),
{
    lemma_methods_apart();
    if let Err(e) = tool_args::tool_argv(name, arguments) {
        law_replies_carry_a_result_or_an_error(id, mcp::failure(e), 0, Seq::empty());
    }
}

/// A message without a method is refused, and so is a line that is no JSON; several messages in a
/// line are each answered as they would be alone.
pub proof fn law_lines_are_answered(message: JsonView, messages: Seq<JsonView>, cause: Seq<char>)
    ensures
        json::member(message, "id"@) is Some && !(json::member(message, "method"@) matches Some(m)
            && m is Str) ==> is_refused(message, -32600),
        !(message is Array) ==> mcp::line_action(Ok(message)) == LineView::One(
            mcp::action(message),
        ),
        mcp::line_action(Ok(JsonView::Array(messages))) matches LineView::Batch(all) && all.len()
            == messages.len() && forall|i: int|
            0 <= i < messages.len() ==> #[trigger] all[i] == mcp::action(messages[i]),
        mcp::line_action(Err(cause)) matches LineView::One(ActionView::Reply(j)) && (json::member(
            j,
            "error"@,
        ) matches Some(e) && json::member(e, "code"@) == Some(json::integer_value(-32700))),
{
    if let Some(id) = json::member(message, "id"@) {
        law_replies_carry_a_result_or_an_error(id, JsonView::Null, -32600, "missing method"@);
    }
    law_replies_carry_a_result_or_an_error(
        JsonView::Null,
        JsonView::Null,
        -32700,
        "parse error: "@ + cause,
    );
}

} // verus!
