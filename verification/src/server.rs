//! The decisions of the HTTP server.
use crate::hits::{files_json, location_json};
use crate::hits;
use crate::index::{ClassHierarchy, Index, IndexView};
use crate::index;
use crate::json::{Fields, Json, JsonView};
use crate::json;
use crate::language::Language;
use crate::paths::{extension_of, file_stem_of, join_path};
use crate::paths;
use crate::text::{chars_of, joined, parse_number, same};
use crate::text;
use crate::types::{Definition, DefinitionView, Reference, ReferenceView, SymbolKind, Visibility};
use vstd::prelude::*;

verus! {

/// How the server is started.
#[derive(Debug)]
pub struct ServerArgs {
    pub data_dir: String,
    pub host: String,
    pub port: u16,
}

/// How the server is started.
pub struct ServerArgsView {
    pub data_dir: Seq<char>,
    pub host: Seq<char>,
    pub port: u16,
}

impl View for ServerArgs {
    type V = ServerArgsView;

    open spec fn view(&self) -> ServerArgsView {
        ServerArgsView { data_dir: self.data_dir@, host: self.host@, port: self.port }
    }
}

/// How the server is started where nothing is said.
pub open spec fn default_server() -> ServerArgsView {
    ServerArgsView { data_dir: "./data"@, host: "127.0.0.1"@, port: 8970 }
}

/// Whether an argument is an option that takes a value.
pub open spec fn takes_value(arg: Seq<char>) -> bool {
    arg == "--data-dir"@ || arg == "--host"@ || arg == "--port"@
}

/// An option is set; a port that is none leaves the port as it was.
pub open spec fn with_option(s: ServerArgsView, name: Seq<char>, value: Seq<char>) -> ServerArgsView {
    if name == "--data-dir"@ {
        ServerArgsView { data_dir: value, ..s }
    } else if name == "--host"@ {
        ServerArgsView { host: value, ..s }
    } else {
        match text::number_upto(value, u16::MAX as int) {
            Some(n) => ServerArgsView { port: n as u16, ..s },
            None => s,
        }
    }
}

/// Arguments from a position on are read one after the other. An option without a value and
/// anything else is passed over.
pub open spec fn read_server_args(args: Seq<Seq<char>>, i: int, s: ServerArgsView) -> ServerArgsView
    decreases args.len() - i,
{
    if i >= args.len() {
        s
    } else if takes_value(args[i]) {
        if i + 1 < args.len() {
            read_server_args(args, i + 2, with_option(s, args[i], args[i + 1]))
        } else {
            s
        }
    } else {
        read_server_args(args, i + 1, s)
    }
}

/// Reads how the server is started.
pub fn parse_server_args(args: &Vec<String>) -> (r: ServerArgs)
    ensures
        r@ == read_server_args(text::views(args@), 0, default_server()),
{
    let ghost all = text::views(args@);
    let mut data_dir = "./data".to_owned();
    let mut host = "127.0.0.1".to_owned();
    let mut port: u16 = 8970;
    let mut i: usize = 0;
    while i < args.len()
        invariant
            all == text::views(args@),
            i <= args@.len(),
            read_server_args(all, 0, default_server()) == read_server_args(
                all,
                i as int,
                ServerArgsView { data_dir: data_dir@, host: host@, port },
            ),
        decreases args@.len() - i,
    {
        let arg = args[i].as_str();
        assert(all[i as int] == arg@);
        if same(arg, "--data-dir") || same(arg, "--host") || same(arg, "--port") {
            if i + 1 < args.len() {
                let value = args[i + 1].as_str();
                assert(all[i + 1] == value@);
                if same(arg, "--data-dir") {
                    data_dir = value.to_owned();
                } else if same(arg, "--host") {
                    host = value.to_owned();
                } else if let Some(n) = parse_number(value, u16::MAX as u64) {
                    port = n as u16;
                }
                i = i + 1;
            }
        }
        i = i + 1;
    }
    ServerArgs { data_dir, host, port }
}

/// A text with every slash replaced by an underscore.
pub open spec fn without_slashes(s: Seq<char>) -> Seq<char> {
    s.map_values(
        |c: char|
            if c == '/' {
                '_'
            } else {
                c
            },
    )
}

/// The file of a database of the server: it lies in the data directory, whatever the name.
pub open spec fn database_file(data_dir: Seq<char>, name: Seq<char>) -> Seq<char> {
    paths::below(data_dir, without_slashes(name) + ".db"@)
}

/// The file of a database of the server.
pub fn db_path(data_dir: &str, name: &str) -> (r: String)
    ensures
        r@ == database_file(data_dir@, name@),
{
    let chars = chars_of(name);
    let ghost wanted = without_slashes(name@);
    let mut safe = String::new();
    let mut i: usize = 0;
    while i < chars.len()
        invariant
            chars@ == name@,
            wanted == without_slashes(name@),
            i <= chars@.len(),
            safe@ == wanted.take(i as int),
        decreases chars@.len() - i,
    {
        if chars[i] == '/' {
            safe.push('_');
        } else {
            safe.push(chars[i]);
        }
        i = i + 1;
        assert(wanted.take(i as int) =~= wanted.take(i - 1).push(wanted[i - 1]));
    }
    assert(wanted.take(i as int) =~= wanted);
    let file = joined(safe.as_str(), ".db");
    proof {
        reveal_strlit(".db");
        if wanted.len() > 0 {
            assert(file@[0] == wanted[0]);
        } else {
            assert(file@[0] == '.');
        }
    }
    join_path(data_dir, file.as_str())
}

/// No part of the name of a database leads out of the data directory.
pub proof fn law_databases_lie_in_the_data_directory(data_dir: Seq<char>, name: Seq<char>)
    ensures
        ({
            let file = database_file(data_dir, name);
            &&& file.len() >= data_dir.len()
            &&& file.take(data_dir.len() as int) == data_dir
            &&& forall|i: int|
                data_dir.len() < i < file.len() ==> (#[trigger] file[i]) != '/'
        }),
{
    reveal_strlit(".db");
    reveal_strlit("/");
    let safe = without_slashes(name) + ".db"@;
    let file = database_file(data_dir, name);
    assert(file.take(data_dir.len() as int) =~= data_dir);
    assert forall|i: int| 0 <= i < safe.len() implies (#[trigger] safe[i]) != '/' by {
        if i < without_slashes(name).len() {
            assert(safe[i] == without_slashes(name)[i]);
        }
    }
    assert forall|i: int| data_dir.len() < i < file.len() implies (#[trigger] file[i]) != '/' by {
        let shift = file.len() - safe.len();
        assert(file[i] == safe[i - shift]);
    }
}

/// The language of a lowered name, or the message for one that is not known.
pub open spec fn language_of(lowered: Seq<char>) -> Result<Language, Seq<char>> {
    if lowered == "c"@ {
        Ok(Language::C)
    } else if lowered == "cpp"@ || lowered == "c++"@ {
        Ok(Language::Cpp)
    } else {
        Err("unsupported language: '"@ + lowered + "' (use 'c' or 'cpp')"@)
    }
}

/// The language of a lowered name.
pub fn lowered_language(lowered: &str) -> (r: Result<Language, String>)
    ensures
        match (r, language_of(lowered@)) {
            (Ok(a), Ok(b)) => a == b,
            (Err(a), Err(b)) => a@ == b,
            _ => false,
        },
{
    if same(lowered, "c") {
        Ok(Language::C)
    } else if same(lowered, "cpp") || same(lowered, "c++") {
        Ok(Language::Cpp)
    } else {
        let start = joined("unsupported language: '", lowered);
        Err(joined(start.as_str(), "' (use 'c' or 'cpp')"))
    }
}

/// The language of a request.
pub fn request_language(name: &str) -> (r: Result<Language, String>)
    ensures
        match (r, language_of(index::lowered(name@))) {
            (Ok(a), Ok(b)) => a == b,
            (Err(a), Err(b)) => a@ == b,
            _ => false,
        },
{
    lowered_language(name.to_lowercase().as_str())
}

/// The body of a reply that went well.
pub open spec fn ok_body(data: JsonView) -> JsonView {
    JsonView::Object(seq![("success"@, JsonView::Bool(true)), ("data"@, data)])
}

/// The body of a reply that failed.
pub open spec fn error_body(message: Seq<char>) -> JsonView {
    JsonView::Object(
        seq![("success"@, JsonView::Bool(false)), ("error"@, json::text_value(message))],
    )
}

/// The body of a reply that went well.
pub fn json_ok(data: Json) -> (r: Json)
    ensures
        r@ == ok_body(data@),
{
    let ghost wanted = ok_body(data@);
    let r = Fields::new().with("success", Json::Bool(true)).with("data", data).object();
    assert(r@->Object_0 =~= wanted->Object_0);
    r
}

/// The body of a reply that failed.
pub fn json_err(message: &str) -> (r: Json)
    ensures
        r@ == error_body(message@),
{
    let r = Fields::new().with("success", Json::Bool(false)).with(
        "error",
        Json::text(message),
    ).object();
    assert(r@->Object_0 =~= error_body(message@)->Object_0);
    r
}

/// What a request to index is answered.
pub open spec fn indexed_value(db: Seq<char>, path: Seq<char>, ix: IndexView) -> JsonView {
    JsonView::Object(
        seq![
            ("db"@, json::text_value(db)),
            ("path"@, json::text_value(path)),
            ("definitions"@, json::count_value(ix.definitions.len())),
            ("references"@, json::count_value(ix.references.len())),
            ("files"@, json::count_value(ix.files.len())),
        ],
    )
}

/// What a request to index is answered.
pub fn indexed_json(db: &str, path: &str, index: &Index) -> (r: Json)
    ensures
        r@ == indexed_value(db@, path@, index@),
{
    let files = index.files();
    assert(text::views(files@).len() == files@.len());
    let r = Fields::new().with("db", Json::text(db)).with("path", Json::text(path)).with(
        "definitions",
        Json::count(index.definition_count()),
    ).with("references", Json::count(index.reference_count())).with(
        "files",
        Json::count(files.len()),
    ).object();
    assert(r@->Object_0 =~= indexed_value(db@, path@, index@)->Object_0);
    r
}

/// A database of the list: the name of a file with the extension `db`.
pub open spec fn listed(path: Seq<char>) -> Option<JsonView> {
    match (paths::extension(path), paths::file_stem(path)) {
        (Some(e), Some(stem)) => if e == "db"@ {
            Some(
                JsonView::Object(
                    seq![("name"@, json::text_value(stem)), ("path"@, json::text_value(path))],
                ),
            )
        } else {
            None
        },
        _ => None,
    }
}

/// The databases among files.
pub open spec fn listed_all(files: Seq<Seq<char>>) -> Seq<JsonView>
    decreases files.len(),
{
    if files.len() == 0 {
        Seq::empty()
    } else {
        let before = listed_all(files.drop_last());
        match listed(files.last()) {
            Some(j) => before.push(j),
            None => before,
        }
    }
}

/// The databases among files.
pub fn list_databases(files: &Vec<String>) -> (r: Json)
    ensures
        r@ == JsonView::Array(listed_all(text::views(files@))),
{
    let ghost all = text::views(files@);
    let mut out: Vec<Json> = Vec::new();
    let mut i: usize = 0;
    assert(text::views(out@) =~= Seq::empty());
    while i < files.len()
        invariant
            all == text::views(files@),
            i <= files@.len(),
            text::views(out@) == listed_all(all.take(i as int)),
        decreases files@.len() - i,
    {
        let path = files[i].as_str();
        proof {
            assert(all.take(i + 1).drop_last() =~= all.take(i as int));
            assert(all.take(i + 1).last() == path@);
        }
        if let Some(e) = extension_of(path) {
            if same(e.as_str(), "db") {
                if let Some(stem) = file_stem_of(path) {
                    let entry = Fields::new().with("name", Json::text(stem.as_str())).with(
                        "path",
                        Json::text(path),
                    ).object();
                    proof {
                        assert(entry@->Object_0 =~= listed(path@)->0->Object_0);
                        text::lemma_views_push(out@, entry);
                    }
                    out.push(entry);
                }
            }
        }
        i = i + 1;
    }
    assert(all.take(i as int) =~= all);
    Json::array(out)
}

/// The message for a database that is not there.
pub fn not_found(name: &str, path: &str) -> (r: String)
    ensures
        r@ == "database '"@ + name@ + "' not found at "@ + path@,
{
    let start = joined("database '", name);
    let named = joined(start.as_str(), "' not found at ");
    joined(named.as_str(), path)
}

/// The message for a query of a database that is not there.
pub fn unknown_database(name: &str) -> (r: String)
    ensures
        r@ == "database '"@ + name@ + "' not found"@,
{
    let start = joined("database '", name);
    joined(start.as_str(), "' not found")
}

/// What a query is answered.
pub open spec fn query_value(columns: Seq<Seq<char>>, rows: Seq<JsonView>) -> JsonView {
    JsonView::Object(
        seq![
            ("columns"@, JsonView::Array(columns.map_values(|s: Seq<char>| json::text_value(s)))),
            ("rows"@, JsonView::Array(rows)),
        ],
    )
}

/// What a query is answered.
pub fn query_json(columns: &Vec<String>, rows: Vec<Json>) -> (r: Json)
    ensures
        r@ == query_value(text::views(columns@), text::views(rows@)),
{
    let ghost wanted = query_value(text::views(columns@), text::views(rows@));
    let r = Fields::new().with("columns", Json::texts(columns)).with(
        "rows",
        Json::array(rows),
    ).object();
    assert(r@->Object_0 =~= wanted->Object_0);
    r
}

/// The label of a kind in replies.
pub open spec fn kind_label(k: SymbolKind) -> Seq<char> {
    match k {
        SymbolKind::Function => "Function"@,
        SymbolKind::Method => "Method"@,
        SymbolKind::Constructor => "Constructor"@,
        SymbolKind::Destructor => "Destructor"@,
        SymbolKind::Macro => "Macro"@,
        SymbolKind::Variable => "Variable"@,
        SymbolKind::Class => "Class"@,
        SymbolKind::Struct => "Struct"@,
        SymbolKind::Union => "Union"@,
        SymbolKind::Enum => "Enum"@,
        SymbolKind::EnumVariant => "EnumVariant"@,
        SymbolKind::Typedef => "Typedef"@,
        SymbolKind::Namespace => "Namespace"@,
        SymbolKind::Field => "Field"@,
    }
}

/// The label of a kind in replies.
fn label_of_kind(k: SymbolKind) -> (r: &'static str)
    ensures
        r@ == kind_label(k),
{
    match k {
        SymbolKind::Function => "Function",
        SymbolKind::Method => "Method",
        SymbolKind::Constructor => "Constructor",
        SymbolKind::Destructor => "Destructor",
        SymbolKind::Macro => "Macro",
        SymbolKind::Variable => "Variable",
        SymbolKind::Class => "Class",
        SymbolKind::Struct => "Struct",
        SymbolKind::Union => "Union",
        SymbolKind::Enum => "Enum",
        SymbolKind::EnumVariant => "EnumVariant",
        SymbolKind::Typedef => "Typedef",
        SymbolKind::Namespace => "Namespace",
        SymbolKind::Field => "Field",
    }
}

/// The label of a visibility in replies.
pub open spec fn visibility_label(v: Visibility) -> Seq<char> {
    match v {
        Visibility::Public => "Public"@,
        Visibility::Protected => "Protected"@,
        Visibility::Private => "Private"@,
    }
}

/// The record of a definition.
pub open spec fn definition_record(d: DefinitionView) -> JsonView {
    JsonView::Object(
        seq![
            ("id"@, json::optional_integer(d.id)),
            ("name"@, json::text_value(d.name)),
            ("qualified_name"@, json::text_value(d.qualified_name)),
            ("kind"@, json::text_value(kind_label(d.kind))),
            ("location"@, hits::location_value(d.location)),
            ("parent"@, json::optional_text(d.parent)),
            ("signature"@, json::optional_text(d.signature)),
            ("visibility"@, json::text_value(visibility_label(d.visibility))),
            ("is_definition"@, JsonView::Bool(d.is_definition)),
            ("extra"@, json::optional_text(d.extra)),
        ],
    )
}

/// The records of definitions.
pub open spec fn definition_records(defs: Seq<DefinitionView>) -> JsonView {
    JsonView::Array(defs.map_values(|d: DefinitionView| definition_record(d)))
}

/// The records of definitions.
pub fn definitions_json(defs: &Vec<&Definition>) -> (r: Json)
    ensures
        r@ == definition_records(text::views(defs@)),
{
    let ghost wanted = definition_records(text::views(defs@))->Array_0;
    let mut out: Vec<Json> = Vec::new();
    let mut i: usize = 0;
    while i < defs.len()
        invariant
            wanted == definition_records(text::views(defs@))->Array_0,
            i <= defs@.len(),
            out@.len() == i,
            forall|k: int| 0 <= k < i ==> (#[trigger] out@[k])@ == wanted[k],
        decreases defs@.len() - i,
    {
        let d = defs[i];
        let visibility = match d.visibility {
            Visibility::Public => "Public",
            Visibility::Protected => "Protected",
            Visibility::Private => "Private",
        };
        let record = Fields::new().with("id", Json::optional_integer(d.id)).with(
            "name",
            Json::text(d.name.as_str()),
        ).with("qualified_name", Json::text(d.qualified_name.as_str())).with(
            "kind",
            Json::text(label_of_kind(d.kind)),
        ).with("location", location_json(&d.location)).with(
            "parent",
            Json::optional(&d.parent),
        ).with("signature", Json::optional(&d.signature)).with(
            "visibility",
            Json::text(visibility),
        ).with("is_definition", Json::Bool(d.is_definition)).with(
            "extra",
            Json::optional(&d.extra),
        ).object();
        proof {
            assert(text::views(defs@)[i as int] == d@);
            assert(record@->Object_0 =~= definition_record(d@)->Object_0);
        }
        out.push(record);
        i = i + 1;
    }
    assert(text::views(out@) =~= wanted);
    Json::array(out)
}

/// The record of a reference.
pub open spec fn reference_record(x: ReferenceView) -> JsonView {
    JsonView::Object(
        seq![
            ("id"@, json::optional_integer(x.id)),
            ("name"@, json::text_value(x.name)),
            ("kind"@, json::text_value(kind_label(x.kind))),
            ("location"@, hits::location_value(x.location)),
            (
                "def_id"@,
                match x.def_id {
                    Some(id) => json::count_value(id.0 as nat),
                    None => JsonView::Null,
                },
            ),
            ("context"@, json::optional_text(x.context)),
        ],
    )
}

/// The records of references.
pub open spec fn reference_records(uses: Seq<ReferenceView>) -> JsonView {
    JsonView::Array(uses.map_values(|x: ReferenceView| reference_record(x)))
}

/// The records of references.
pub fn references_json(uses: &Vec<&Reference>) -> (r: Json)
    ensures
        r@ == reference_records(text::views(uses@)),
{
    let ghost wanted = reference_records(text::views(uses@))->Array_0;
    let mut out: Vec<Json> = Vec::new();
    let mut i: usize = 0;
    while i < uses.len()
        invariant
            wanted == reference_records(text::views(uses@))->Array_0,
            i <= uses@.len(),
            out@.len() == i,
            forall|k: int| 0 <= k < i ==> (#[trigger] out@[k])@ == wanted[k],
        decreases uses@.len() - i,
    {
        let x = uses[i];
        let def_id = match x.def_id {
            Some(id) => Json::count(id.0),
            None => Json::Null,
        };
        let record = Fields::new().with("id", Json::optional_integer(x.id)).with(
            "name",
            Json::text(x.name.as_str()),
        ).with("kind", Json::text(label_of_kind(x.kind))).with(
            "location",
            location_json(&x.location),
        ).with("def_id", def_id).with("context", Json::optional(&x.context)).object();
        proof {
            assert(text::views(uses@)[i as int] == x@);
            assert(record@->Object_0 =~= reference_record(x@)->Object_0);
        }
        out.push(record);
        i = i + 1;
    }
    assert(text::views(out@) =~= wanted);
    Json::array(out)
}

/// What a request for a class hierarchy is answered.
pub open spec fn hierarchy_record(
    bases: Seq<DefinitionView>,
    derived: Seq<DefinitionView>,
) -> JsonView {
    JsonView::Object(
        seq![
            ("bases"@, definition_records(bases)),
            ("derived"@, definition_records(derived)),
        ],
    )
}

/// What a request for a class hierarchy is answered.
pub fn hierarchy_json(h: &ClassHierarchy<'_>) -> (r: Json)
    ensures
        r@ == hierarchy_record(text::views(h.bases@), text::views(h.derived@)),
{
    let r = Fields::new().with("bases", definitions_json(&h.bases)).with(
        "derived",
        definitions_json(&h.derived),
    ).object();
    assert(r@->Object_0 =~= hierarchy_record(
        text::views(h.bases@),
        text::views(h.derived@),
    )->Object_0);
    r
}

/// What a request for statistics is answered.
pub open spec fn stats_value(ix: IndexView) -> JsonView {
    JsonView::Object(
        seq![
            ("definitions"@, json::count_value(ix.definitions.len())),
            ("references"@, json::count_value(ix.references.len())),
            ("calls"@, json::count_value(ix.calls.len())),
            ("inherits"@, json::count_value(ix.inherits.len())),
            ("files"@, hits::file_values(ix.files)),
        ],
    )
}

/// What a request for statistics is answered.
pub fn stats_json(index: &Index) -> (r: Json)
    ensures
        r@ == stats_value(index@),
{
    let calls = index.calls();
    let inherits = index.inherits();
    proof {
        assert(text::views(calls@).len() == calls@.len());
        assert(text::views(inherits@).len() == inherits@.len());
    }
    let r = Fields::new().with("definitions", Json::count(index.definition_count())).with(
        "references",
        Json::count(index.reference_count()),
    ).with("calls", Json::count(calls.len())).with("inherits", Json::count(inherits.len())).with(
        "files",
        files_json(index.files()),
    ).object();
    assert(r@->Object_0 =~= stats_value(index@)->Object_0);
    r
}

} // verus!
