//! What holds of the tools that the server offers.
use crate::json::JsonView;
use crate::json;
use crate::tool_args;
use crate::tools::Members;
use crate::tools;
use vstd::prelude::*;

verus! {

/// The name of a tool.
pub open spec fn tool_name(tool: JsonView) -> Option<Seq<char>> {
    match json::member(tool, "name"@) {
        Some(JsonView::Str(s)) => Some(s),
        _ => None,
    }
}

/// Whether a tool with a name is offered.
pub open spec fn is_offered(name: Seq<char>) -> bool {
    exists|i: int|
        0 <= i < tools::all_tools().len() && tool_name(#[trigger] tools::all_tools()[i]) == Some(
            name,
        )
}

/// Whether a schema has a property.
pub open spec fn has_property(schema: JsonView, key: JsonView) -> bool {
    match (json::member(schema, "properties"@), key) {
        (Some(properties), JsonView::Str(s)) => json::member(properties, s) is Some,
        _ => false,
    }
}

/// Whether every key that a tool requires is a property of its arguments.
pub open spec fn requires_properties(tool: JsonView) -> bool {
    match json::member(tool, "inputSchema"@) {
        Some(schema) => match json::member(schema, "required"@) {
            Some(JsonView::Array(keys)) => forall|k: int|
                0 <= k < keys.len() ==> has_property(schema, #[trigger] keys[k]),
            Some(_) => false,
            None => true,
        },
        None => false,
    }
}

/// What a name that no tool has is answered.
pub open spec fn unknown_tool(name: Seq<char>) -> Seq<char> {
    "unknown tool '"@ + name + "'"@
}

/// The names of the tools, in the order in which they are listed.
spec fn offered_names() -> Seq<Seq<char>> {
    seq![
        "xref_index"@,
        "xref_reindex"@,
        "xref_find"@,
        "xref_search"@,
        "xref_refs"@,
        "xref_callers"@,
        "xref_callees"@,
        "xref_hierarchy"@,
        "xref_context"@,
        "xref_expand"@,
        "xref_stats"@,
        "xref_sql"@,
    ]
}

/// The members of a tool are found by their names.
proof fn lemma_tool(name: Seq<char>, description: Seq<char>, schema: JsonView)
    ensures
        tool_name(tools::tool_value(name, description, schema)) == Some(name),
        json::member(tools::tool_value(name, description, schema), "inputSchema"@) == Some(schema),
{
    reveal_strlit("name");
    reveal_strlit("description");
    reveal_strlit("inputSchema");
    reveal_with_fuel(json::member_at, 4);
    let all = tools::tool_value(name, description, schema)->Object_0;
    assert("name"@.len() == 4 && "description"@.len() == 11 && "inputSchema"@.len() == 11);
    assert(all.len() == 3);
    assert(all.last() == ("inputSchema"@, schema));
    assert(all.drop_last().last() == ("description"@, json::text_value(description)));
    assert(all.drop_last().drop_last().last() == ("name"@, json::text_value(name)));
}

/// A member that is there is found.
proof fn lemma_member(members: Members, i: int)
    requires
        0 <= i < members.len(),
    ensures
        json::member_at(members, members[i].0) is Some,
    decreases members.len(),
{
    if members.last().0 != members[i].0 {
        lemma_member(members.drop_last(), i);
        assert(members.drop_last()[i] == members[i]);
    }
}

/// A schema that requires one of its properties.
proof fn lemma_schema_with(
    name: Seq<char>,
    description: Seq<char>,
    properties: Members,
    required: Seq<char>,
    i: int,
)
    requires
        0 <= i < properties.len(),
        properties[i].0 == required,
    ensures
        requires_properties(
            tools::tool_value(name, description, tools::schema_with(properties, required)),
        ),
{
    reveal_strlit("type");
    reveal_strlit("properties");
    reveal_strlit("required");
    reveal_with_fuel(json::member_at, 4);
    let schema = tools::schema_with(properties, required);
    lemma_tool(name, description, schema);
    lemma_member(properties, i);
    let all = schema->Object_0;
    let keys = seq![json::text_value(required)];
    assert("properties"@.len() == 10 && "required"@.len() == 8);
    assert(all.len() == 3);
    assert(all.last() == ("required"@, JsonView::Array(keys)));
    assert(all.drop_last().last() == ("properties"@, JsonView::Object(properties)));
    assert(json::member(schema, "required"@) == Some(JsonView::Array(keys)));
    assert(json::member(schema, "properties"@) == Some(JsonView::Object(properties)));
    assert(has_property(schema, keys[0]));
}

/// A schema that requires nothing.
proof fn lemma_schema(name: Seq<char>, description: Seq<char>, properties: Members)
    ensures
        requires_properties(tools::tool_value(name, description, tools::schema(properties))),
{
    reveal_strlit("type");
    reveal_strlit("properties");
    reveal_strlit("required");
    reveal_with_fuel(json::member_at, 4);
    let schema = tools::schema(properties);
    lemma_tool(name, description, schema);
    let all = schema->Object_0;
    assert("properties"@.len() == 10 && "required"@.len() == 8 && "type"@.len() == 4);
    assert(all.len() == 2);
    assert(all.last() == ("properties"@, JsonView::Object(properties)));
    assert(all.drop_last().last() == ("type"@, json::text_value("object"@)));
    assert(json::member(schema, "required"@) is None);
}

/// The tools have their names.
proof fn lemma_names(i: int)
    requires
        0 <= i < offered_names().len(),
    ensures
        tools::all_tools().len() == offered_names().len(),
        tool_name(tools::all_tools()[i]) == Some(offered_names()[i]),
{
    let tool = tools::all_tools()[i];
    let members = tool->Object_0;
    lemma_tool(members[0].1->Str_0, members[1].1->Str_0, members[2].1);
    assert(tool->Object_0 =~= tools::tool_value(
        members[0].1->Str_0,
        members[1].1->Str_0,
        members[2].1,
    )->Object_0);
}

/// The names of the tools differ.
proof fn lemma_names_differ(i: int, j: int)
    requires
        0 <= i < j < offered_names().len(),
    ensures
        offered_names()[i] != offered_names()[j],
{
    reveal_strlit("xref_index");
    reveal_strlit("xref_reindex");
    reveal_strlit("xref_find");
    reveal_strlit("xref_search");
    reveal_strlit("xref_refs");
    reveal_strlit("xref_callers");
    reveal_strlit("xref_callees");
    reveal_strlit("xref_hierarchy");
    reveal_strlit("xref_context");
    reveal_strlit("xref_expand");
    reveal_strlit("xref_stats");
    reveal_strlit("xref_sql");
    let names = offered_names();
    assert(names[0] == "xref_index"@ && names[0].len() == 10);
    assert(names[1] == "xref_reindex"@ && names[1].len() == 12);
    assert(names[2] == "xref_find"@ && names[2].len() == 9);
    assert(names[3] == "xref_search"@ && names[3].len() == 11);
    assert(names[4] == "xref_refs"@ && names[4].len() == 9);
    assert(names[5] == "xref_callers"@ && names[5].len() == 12);
    assert(names[6] == "xref_callees"@ && names[6].len() == 12);
    assert(names[7] == "xref_hierarchy"@ && names[7].len() == 14);
    assert(names[8] == "xref_context"@ && names[8].len() == 12);
    assert(names[9] == "xref_expand"@ && names[9].len() == 11);
    assert(names[10] == "xref_stats"@ && names[10].len() == 10);
    assert(names[11] == "xref_sql"@ && names[11].len() == 8);
    assert("xref_find"@[5] != "xref_refs"@[5]);
    assert("xref_index"@[5] != "xref_stats"@[5]);
    assert("xref_search"@[5] != "xref_expand"@[5]);
    assert("xref_reindex"@[5] != "xref_callers"@[5]);
    assert("xref_reindex"@[5] != "xref_callees"@[5]);
    assert("xref_reindex"@[5] != "xref_context"@[5]);
    assert("xref_callers"@[10] != "xref_callees"@[10]);
    assert("xref_callers"@[6] != "xref_context"@[6]);
    assert("xref_callees"@[6] != "xref_context"@[6]);
}

/// No two tools share a name, and every key that a tool requires is a property of its arguments.
pub proof fn law_tools_are_well_described(i: int, j: int)
    requires
        0 <= i < tools::all_tools().len(),
        0 <= j < tools::all_tools().len(),
    ensures
        tool_name(tools::all_tools()[i]) is Some,
        i != j ==> tool_name(tools::all_tools()[i]) != tool_name(tools::all_tools()[j]),
        requires_properties(tools::all_tools()[i]),
{
    lemma_names(i);
    lemma_names(j);
    if i < j {
        lemma_names_differ(i, j);
    } else if j < i {
        lemma_names_differ(j, i);
    }
    lemma_requires(i);
}

/// Every key that a tool requires is a property of its arguments.
proof fn lemma_requires(i: int)
    requires
        0 <= i < tools::all_tools().len(),
    ensures
        requires_properties(tools::all_tools()[i]),
{
    let tool = tools::all_tools()[i];
    let name = tool->Object_0[0].1->Str_0;
    let description = tool->Object_0[1].1->Str_0;
    let query = tools::query_properties();
    let n = query.len() as int;
    assert(n == 7);
    if i < 2 {
        let properties = tools::index_properties();
        assert(properties[0].0 == "roots"@);
        lemma_schema_with(name, description, properties, "roots"@, 0);
        assert(tool->Object_0 =~= tools::tool_value(
            name,
            description,
            tools::schema_with(properties, "roots"@),
        )->Object_0);
    } else if i == 8 {
        let schema = tools::context_schema_value();
        let properties = schema->Object_0[1].1->Object_0;
        lemma_schema(name, description, properties);
        assert(tool->Object_0 =~= tools::tool_value(
            name,
            description,
            tools::schema(properties),
        )->Object_0);
    } else if i == 10 {
        lemma_schema(name, description, query);
        assert(tool->Object_0 =~= tools::tool_value(
            name,
            description,
            tools::schema(query),
        )->Object_0);
    } else if i == 9 {
        let schema = tools::expand_schema_value();
        let properties = schema->Object_0[1].1->Object_0;
        assert(properties[n].0 == "symbol"@);
        lemma_schema_with(name, description, properties, "symbol"@, n);
        assert(tool->Object_0 =~= tools::tool_value(
            name,
            description,
            tools::schema_with(properties, "symbol"@),
        )->Object_0);
    } else {
        let schema = tool->Object_0[2].1;
        let properties = schema->Object_0[1].1->Object_0;
        let key = schema->Object_0[2].1->Array_0[0]->Str_0;
        assert(properties[n].0 == key);
        lemma_schema_with(name, description, properties, key, n);
        assert(tool->Object_0 =~= tools::tool_value(
            name,
            description,
            tools::schema_with(properties, key),
        )->Object_0);
    }
}

/// Whether a result is not the answer to an unknown name.
spec fn is_known(r: Result<Seq<Seq<char>>, Seq<char>>) -> bool {
    r matches Err(e) ==> e.len() > 0 && e[0] != 'u'
}

/// What is said of arguments that are missing or wrong.
proof fn lemma_messages(args: JsonView, required: bool, keys: Seq<Seq<char>>)
    ensures
        tool_args::missing(keys).len() > 0,
        tool_args::missing(keys)[0] != 'u',
        is_known(tool_args::roots_under(args, required)),
{
    reveal_strlit("missing required ");
    reveal_strlit("roots must contain strings");
    reveal_strlit("roots must be a string or array of strings");
    reveal_strlit("missing required roots array");
    assert(tool_args::missing(keys)[0] == "missing required "@[0]);
}

/// A tool that is offered is known.
proof fn lemma_known(i: int, args: JsonView)
    requires
        0 <= i < offered_names().len(),
    ensures
        is_known(tool_args::tool_argv(offered_names()[i], args)),
{
    let keys = tool_args::symbol_keys();
    lemma_messages(args, true, keys);
    lemma_messages(args, false, seq!["pattern"@, "query"@, "symbol"@, "name"@]);
    lemma_messages(args, false, seq!["class"@, "symbol"@, "name"@, "query"@]);
    lemma_messages(args, false, seq!["line"@]);
    lemma_messages(args, false, seq!["symbol"@, "name"@, "query"@, "seed"@]);
    lemma_messages(args, false, seq!["sql"@, "query"@]);
}

/// A call is answered with an unknown tool exactly where no tool of the name is offered.
pub proof fn law_unknown_tools_are_those_not_offered(name: Seq<char>, args: JsonView)
    ensures
        tool_args::tool_argv(name, args) == Err::<Seq<Seq<char>>, Seq<char>>(unknown_tool(name))
            <==> !is_offered(name),
{
    let names = offered_names();
    if is_offered(name) {
        let i = choose|i: int|
            0 <= i < tools::all_tools().len() && tool_name(#[trigger] tools::all_tools()[i])
                == Some(name);
        lemma_names(i);
        lemma_known(i, args);
        reveal_strlit("unknown tool '");
        assert(unknown_tool(name)[0] == 'u');
    } else {
        assert forall|i: int| 0 <= i < names.len() implies #[trigger] names[i] != name by {
            lemma_names(i);
            assert(tool_name(tools::all_tools()[i]) == Some(names[i]));
        }
        assert(names[0] == "xref_index"@);
        assert(names[1] == "xref_reindex"@);
        assert(names[2] == "xref_find"@);
        assert(names[3] == "xref_search"@);
        assert(names[4] == "xref_refs"@);
        assert(names[5] == "xref_callers"@);
        assert(names[6] == "xref_callees"@);
        assert(names[7] == "xref_hierarchy"@);
        assert(names[8] == "xref_context"@);
        assert(names[9] == "xref_expand"@);
        assert(names[10] == "xref_stats"@);
        assert(names[11] == "xref_sql"@);
    }
}

} // verus!
